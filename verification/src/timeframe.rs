//! The timeframe ladder: fixed candle durations and the number of
//! lower-timeframe candles each higher timeframe is composed from.

use vstd::prelude::*;

verus! {

/// A fixed candle duration. The ladder is ordered from finest to coarsest.
#[derive(Clone, Copy, Debug, PartialEq, Eq, Structural, Hash)]
pub enum Timeframe {
    M1,
    M5,
    M15,
    M30,
    H1,
    H4,
    D1,
}

/// Duration of one bucket of this timeframe, in milliseconds.
pub open spec fn spec_duration_ms(tf: Timeframe) -> int {
    match tf {
        Timeframe::M1 => 60_000,
        Timeframe::M5 => 300_000,
        Timeframe::M15 => 900_000,
        Timeframe::M30 => 1_800_000,
        Timeframe::H1 => 3_600_000,
        Timeframe::H4 => 14_400_000,
        Timeframe::D1 => 86_400_000,
    }
}

/// How many candles of the immediately lower timeframe make up one candle
/// of this timeframe, along the canonical ladder m1, m5, m15, m30, h1, h4, d1.
/// The finest timeframe has no lower neighbour and maps to 1.
pub open spec fn spec_source_count(tf: Timeframe) -> int {
    match tf {
        Timeframe::M1 => 1,
        Timeframe::M5 => 5,
        Timeframe::M15 => 3,
        Timeframe::M30 => 2,
        Timeframe::H1 => 2,
        Timeframe::H4 => 4,
        Timeframe::D1 => 6,
    }
}

impl Timeframe {
    /// Duration of one bucket of this timeframe, in milliseconds.
    pub fn duration_ms(self) -> (d: u64)
        ensures
            d == spec_duration_ms(self),
    {
        match self {
            Timeframe::M1 => 60_000,
            Timeframe::M5 => 300_000,
            Timeframe::M15 => 900_000,
            Timeframe::M30 => 1_800_000,
            Timeframe::H1 => 3_600_000,
            Timeframe::H4 => 14_400_000,
            Timeframe::D1 => 86_400_000,
        }
    }

    /// Number of immediately-lower-timeframe candles that one candle of this
    /// timeframe is composed from.
    pub fn source_count(self) -> (c: usize)
        ensures
            c == spec_source_count(self),
    {
        match self {
            Timeframe::M1 => 1,
            Timeframe::M5 => 5,
            Timeframe::M15 => 3,
            Timeframe::M30 => 2,
            Timeframe::H1 => 2,
            Timeframe::H4 => 4,
            Timeframe::D1 => 6,
        }
    }
}

/// The whole ladder, finest first.
pub open spec fn full_ladder() -> Seq<Timeframe> {
    seq![
        Timeframe::M1,
        Timeframe::M5,
        Timeframe::M15,
        Timeframe::M30,
        Timeframe::H1,
        Timeframe::H4,
        Timeframe::D1,
    ]
}

/// ASCII whitespace stripped from both ends of an interval token.
pub open spec fn is_space(c: char) -> bool {
    c == ' ' || c == '\t' || c == '\n' || c == '\r'
}

/// The token with leading whitespace removed.
pub open spec fn trim_front(s: Seq<char>) -> Seq<char>
    decreases s.len(),
{
    if s.len() > 0 && is_space(s[0]) {
        trim_front(s.drop_first())
    } else {
        s
    }
}

/// The token with trailing whitespace removed.
pub open spec fn trim_back(s: Seq<char>) -> Seq<char>
    decreases s.len(),
{
    if s.len() > 0 && is_space(s.last()) {
        trim_back(s.drop_last())
    } else {
        s
    }
}

/// The token with whitespace removed from both ends.
pub open spec fn trimmed(s: Seq<char>) -> Seq<char> {
    trim_back(trim_front(s))
}

/// The timeframe a trimmed token names: its bucket length in minutes.
pub open spec fn token_timeframe(tok: Seq<char>) -> Option<Timeframe> {
    if tok == "1"@ {
        Some(Timeframe::M1)
    } else if tok == "5"@ {
        Some(Timeframe::M5)
    } else if tok == "15"@ {
        Some(Timeframe::M15)
    } else if tok == "30"@ {
        Some(Timeframe::M30)
    } else if tok == "60"@ {
        Some(Timeframe::H1)
    } else if tok == "240"@ {
        Some(Timeframe::H4)
    } else if tok == "1440"@ {
        Some(Timeframe::D1)
    } else {
        None
    }
}

/// The comma-separated segments of a character sequence; empty segments are
/// kept, and an empty sequence is one empty segment.
pub open spec fn split_commas(s: Seq<char>) -> Seq<Seq<char>>
    decreases s.len(),
{
    if s.len() == 0 {
        seq![Seq::<char>::empty()]
    } else {
        let rest = split_commas(s.drop_first());
        if s[0] == ',' {
            seq![Seq::<char>::empty()] + rest
        } else {
            seq![seq![s[0]] + rest[0]] + rest.drop_first()
        }
    }
}

/// The timeframes the tokens name, unknown tokens dropped, in token order.
pub open spec fn timeframes_of_tokens(toks: Seq<Seq<char>>) -> Seq<Timeframe>
    decreases toks.len(),
{
    if toks.len() == 0 {
        Seq::empty()
    } else {
        let rest = timeframes_of_tokens(toks.drop_first());
        match token_timeframe(trimmed(toks[0])) {
            Some(tf) => seq![tf] + rest,
            None => rest,
        }
    }
}

/// What [`parse_intervals`] returns: the full ladder for `ALL` in any
/// letter case, otherwise the timeframes named by the comma-separated
/// minute counts, unknown tokens dropped.
pub open spec fn spec_parse_intervals(s: Seq<char>) -> Seq<Timeframe> {
    if crate::text::eq_ignore_ascii_case(s, "ALL"@) {
        full_ladder()
    } else {
        timeframes_of_tokens(split_commas(s))
    }
}

/// Every source count on the ladder is at least one.
pub proof fn lemma_source_count_positive(tf: Timeframe)
    ensures
        spec_source_count(tf) >= 1,
{
}

/// A sequence whose first comma, if any, sits at `m` splits into its first
/// `m` characters and the split of what follows that comma.
proof fn lemma_split_at_first_comma(t: Seq<char>, m: int)
    requires
        0 <= m <= t.len(),
        forall|x: int| 0 <= x < m ==> t[x] != ',',
        m < t.len() ==> t[m] == ',',
    ensures
        m < t.len() ==> split_commas(t) == seq![t.take(m)] + split_commas(t.skip(m + 1)),
        m == t.len() ==> split_commas(t) == seq![t],
    decreases m,
{
    if m == 0 {
        if t.len() == 0 {
            assert(t =~= Seq::<char>::empty());
            assert(split_commas(t) == seq![t]);
        } else {
            assert(t.take(0) =~= Seq::<char>::empty());
            assert(t.skip(1) =~= t.drop_first());
            assert(split_commas(t) =~= seq![t.take(0)] + split_commas(t.skip(1)));
        }
    } else {
        let d = t.drop_first();
        assert(forall|x: int| 0 <= x < m - 1 ==> #[trigger] d[x] == t[x + 1]);
        lemma_split_at_first_comma(d, m - 1);
        let rest = split_commas(d);
        if m < t.len() {
            assert(rest == seq![d.take(m - 1)] + split_commas(d.skip(m)));
            assert(rest[0] == d.take(m - 1));
            assert(seq![t[0]] + d.take(m - 1) =~= t.take(m));
            assert(rest.drop_first() =~= split_commas(d.skip(m)));
            assert(d.skip(m) =~= t.skip(m + 1));
            assert(split_commas(t) =~= seq![t.take(m)] + split_commas(t.skip(m + 1)));
        } else {
            assert(rest == seq![d]);
            assert(rest[0] == d);
            assert(seq![t[0]] + d =~= t);
            assert(rest.drop_first() =~= Seq::<Seq<char>>::empty());
            assert(split_commas(t) =~= seq![t]);
        }
    }
}

/// Trimming the front removes exactly the leading whitespace.
proof fn lemma_trim_front_at(s: Seq<char>, m: int)
    requires
        0 <= m <= s.len(),
        forall|x: int| 0 <= x < m ==> is_space(s[x]),
        m < s.len() ==> !is_space(s[m]),
    ensures
        trim_front(s) == s.skip(m),
    decreases m,
{
    if m == 0 {
        assert(s.skip(0) =~= s);
    } else {
        let d = s.drop_first();
        assert(forall|x: int| 0 <= x < m - 1 ==> #[trigger] d[x] == s[x + 1]);
        lemma_trim_front_at(d, m - 1);
        assert(d.skip(m - 1) =~= s.skip(m));
    }
}

/// Trimming the back removes exactly the trailing whitespace.
proof fn lemma_trim_back_at(s: Seq<char>, m: int)
    requires
        0 <= m <= s.len(),
        forall|x: int| m <= x < s.len() ==> is_space(s[x]),
        m > 0 ==> !is_space(s[m - 1]),
    ensures
        trim_back(s) == s.take(m),
    decreases s.len() - m,
{
    if m == s.len() {
        assert(s.take(m) =~= s);
    } else {
        let d = s.drop_last();
        assert(is_space(s.last()));
        assert(forall|x: int| 0 <= x < s.len() - 1 ==> #[trigger] d[x] == s[x]);
        lemma_trim_back_at(d, m);
        assert(d.take(m) =~= s.take(m));
    }
}

/// The characters of a string, in order.
fn collect_chars(s: &str) -> (r: Vec<char>)
    ensures
        r@ == s@,
{
    let n = s.unicode_len();
    let mut r: Vec<char> = Vec::new();
    let mut i: usize = 0;
    while i < n
        invariant
            i <= n,
            n == s@.len(),
            r@ =~= s@.take(i as int),
        decreases n - i,
    {
        r.push(s.get_char(i));
        i = i + 1;
    }
    proof {
        assert(s@.take(n as int) =~= s@);
    }
    r
}

/// Whether the characters of `cs` from `start` up to `end` spell `pat`.
fn range_eq(cs: &Vec<char>, start: usize, end: usize, pat: &str) -> (r: bool)
    requires
        start <= end <= cs@.len(),
    ensures
        r == (cs@.subrange(start as int, end as int) == pat@),
{
    let plen = pat.unicode_len();
    if end - start != plen {
        proof {
            assert(cs@.subrange(start as int, end as int).len() != pat@.len());
        }
        return false;
    }
    let mut x: usize = 0;
    while x < plen
        invariant
            x <= plen,
            plen == pat@.len(),
            start + plen == end <= cs@.len(),
            forall|y: int| 0 <= y < x ==> cs@[start + y] == pat@[y],
        decreases plen - x,
    {
        if cs[start + x] != pat.get_char(x) {
            proof {
                assert(cs@.subrange(start as int, end as int)[x as int] != pat@[x as int]);
            }
            return false;
        }
        x = x + 1;
    }
    proof {
        assert(cs@.subrange(start as int, end as int) =~= pat@);
    }
    true
}

/// The timeframe a trimmed token (held in `cs` from `ts` up to `te`) names.
fn match_token(cs: &Vec<char>, ts: usize, te: usize) -> (r: Option<Timeframe>)
    requires
        ts <= te <= cs@.len(),
    ensures
        r == token_timeframe(cs@.subrange(ts as int, te as int)),
{
    if range_eq(cs, ts, te, "1") {
        Some(Timeframe::M1)
    } else if range_eq(cs, ts, te, "5") {
        Some(Timeframe::M5)
    } else if range_eq(cs, ts, te, "15") {
        Some(Timeframe::M15)
    } else if range_eq(cs, ts, te, "30") {
        Some(Timeframe::M30)
    } else if range_eq(cs, ts, te, "60") {
        Some(Timeframe::H1)
    } else if range_eq(cs, ts, te, "240") {
        Some(Timeframe::H4)
    } else if range_eq(cs, ts, te, "1440") {
        Some(Timeframe::D1)
    } else {
        None
    }
}

/// Parses a user-facing interval request: `ALL` in any letter case expands
/// to the whole ladder; otherwise the comma-separated minute counts name the
/// timeframes, each token taken after trimming whitespace, and unrecognized
/// tokens are dropped.
pub fn parse_intervals(interval_str: &str) -> (r: Vec<Timeframe>)
    ensures
        r@ == spec_parse_intervals(interval_str@),
{
    if crate::text::str_eq_ignore_ascii_case(interval_str, "ALL") {
        let r = vec![
            Timeframe::M1,
            Timeframe::M5,
            Timeframe::M15,
            Timeframe::M30,
            Timeframe::H1,
            Timeframe::H4,
            Timeframe::D1,
        ];
        proof {
            assert(r@ =~= full_ladder());
        }
        return r;
    }
    let ghost s = interval_str@;
    let cs = collect_chars(interval_str);
    let n = cs.len();
    let mut result: Vec<Timeframe> = Vec::new();
    let mut start: usize = 0;
    let mut done = false;
    proof {
        assert(s.skip(0) =~= s);
        assert(result@ + timeframes_of_tokens(split_commas(s)) =~= timeframes_of_tokens(
            split_commas(s),
        ));
    }
    while !done
        invariant
            cs@ == s,
            n == s.len(),
            start <= n,
            timeframes_of_tokens(split_commas(s)) == result@ + (if !done {
                timeframes_of_tokens(split_commas(s.skip(start as int)))
            } else {
                Seq::<Timeframe>::empty()
            }),
        decreases (if done {
            0int
        } else {
            n - start + 1
        }),
    {
        let ghost st = start as int;
        let ghost t = s.skip(st);
        let mut end = start;
        while end < n && cs[end] != ','
            invariant
                cs@ == s,
                n == s.len(),
                start <= end <= n,
                forall|x: int| start <= x < end ==> s[x] != ',',
            decreases n - end,
        {
            end = end + 1;
        }
        let mut ts = start;
        while ts < end && is_space_exec(cs[ts])
            invariant
                cs@ == s,
                n == s.len(),
                start <= ts <= end <= n,
                forall|x: int| start <= x < ts ==> is_space(s[x]),
            decreases end - ts,
        {
            ts = ts + 1;
        }
        let mut te = end;
        while te > ts && is_space_exec(cs[te - 1])
            invariant
                cs@ == s,
                n == s.len(),
                start <= ts <= te <= end <= n,
                forall|x: int| te <= x < end ==> is_space(s[x]),
            decreases te,
        {
            te = te - 1;
        }
        let ghost seg = s.subrange(st, end as int);
        proof {
            assert(forall|x: int| 0 <= x < t.len() ==> #[trigger] t[x] == s[x + st]);
            lemma_split_at_first_comma(t, end - st);
            assert(t.take(end - st) =~= seg);
            assert(forall|x: int| 0 <= x < seg.len() ==> #[trigger] seg[x] == s[x + st]);
            lemma_trim_front_at(seg, ts - st);
            let f = seg.skip(ts - st);
            assert(forall|x: int| 0 <= x < f.len() ==> #[trigger] f[x] == s[x + ts]);
            lemma_trim_back_at(f, te - ts);
            assert(f.take(te - ts) =~= s.subrange(ts as int, te as int));
            assert(trimmed(seg) == s.subrange(ts as int, te as int));
        }
        let parsed = match_token(&cs, ts, te);
        let ghost result0 = result@;
        match parsed {
            Some(tf) => {
                result.push(tf);
            },
            None => {},
        }
        if end == n {
            done = true;
            proof {
                assert(split_commas(t) == seq![t]);
                assert(split_commas(t).drop_first() =~= Seq::<Seq<char>>::empty());
                assert(split_commas(t)[0] == t);
                assert(t =~= seg);
                assert(timeframes_of_tokens(Seq::<Seq<char>>::empty()) =~= Seq::<
                    Timeframe,
                >::empty());
                match token_timeframe(trimmed(seg)) {
                    Some(tf) => {
                        assert(timeframes_of_tokens(split_commas(t)) =~= seq![tf]);
                        assert(result@ =~= result0.push(tf));
                        assert(result0 + seq![tf] =~= result@);
                        assert(result@ + Seq::<Timeframe>::empty() =~= result@);
                    },
                    None => {
                        assert(timeframes_of_tokens(split_commas(t)) =~= Seq::<
                            Timeframe,
                        >::empty());
                        assert(result0 + Seq::<Timeframe>::empty() =~= result0);
                        assert(result@ + Seq::<Timeframe>::empty() =~= result@);
                    },
                }
            }
        } else {
            start = end + 1;
            proof {
                let rest = split_commas(s.skip(start as int));
                assert(t.skip(end - st + 1) =~= s.skip(start as int));
                assert(split_commas(t) == seq![seg] + rest);
                assert(split_commas(t)[0] == seg);
                assert(split_commas(t).drop_first() =~= rest);
                match token_timeframe(trimmed(seg)) {
                    Some(tf) => {
                        assert(timeframes_of_tokens(split_commas(t)) =~= seq![tf]
                            + timeframes_of_tokens(rest));
                        assert(result@ =~= result0.push(tf));
                        assert(result0 + (seq![tf] + timeframes_of_tokens(rest)) =~= result@
                            + timeframes_of_tokens(rest));
                    },
                    None => {
                        assert(timeframes_of_tokens(split_commas(t)) =~= timeframes_of_tokens(
                            rest,
                        ));
                    },
                }
            }
        }
    }
    result
}

/// ASCII whitespace test.
fn is_space_exec(c: char) -> (r: bool)
    ensures
        r == is_space(c),
{
    c == ' ' || c == '\t' || c == '\n' || c == '\r'
}

} // verus!
