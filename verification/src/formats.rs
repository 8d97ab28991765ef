//! What adapters hand over: input rows and interval lists, read from their
//! text form.

use crate::engine::timeframe_of;
use crate::types::{Instrument, MarketType, Pair, Side, Timeframe, Trade};
use vstd::prelude::*;
use vstd::string::StrSliceExecFns;

verus! {

/// The code point of a character, that of the lower-case letter for an
/// upper-case letter `A` to `Z`.
pub open spec fn lower(c: char) -> u32 {
    if 65 <= c as u32 <= 90 {
        (c as u32 + 32) as u32
    } else {
        c as u32
    }
}

/// White space as Unicode defines it: the ASCII controls tab to carriage
/// return, the space, next line, the no-break space, and the rest of the
/// characters with the property `White_Space`.
pub open spec fn is_space(c: char) -> bool {
    let u = c as u32;
    ||| 9 <= u <= 13
    ||| u == 0x20
    ||| u == 0x85
    ||| u == 0xA0
    ||| u == 0x1680
    ||| 0x2000 <= u <= 0x200A
    ||| u == 0x2028
    ||| u == 0x2029
    ||| u == 0x202F
    ||| u == 0x205F
    ||| u == 0x3000
}

/// The text equals `word`, a word of lower-case letters, when letters are
/// compared without case.
pub open spec fn folds_to(text: Seq<char>, word: Seq<char>) -> bool {
    &&& text.len() == word.len()
    &&& forall|i: int| 0 <= i < text.len() ==> lower(#[trigger] text[i]) == word[i] as u32
}

/// The side a token names: `buy` or `sell` in any letter case, anything else
/// unknown.
pub open spec fn side_of(token: Seq<char>) -> Side {
    if folds_to(token, seq!['b', 'u', 'y']) {
        Side::Buy
    } else if folds_to(token, seq!['s', 'e', 'l', 'l']) {
        Side::Sell
    } else {
        Side::Unknown
    }
}

/// The decimal digits of a natural number.
pub open spec fn digits(n: nat) -> Seq<char>
    decreases n,
{
    if n < 10 {
        seq![((48 + n) as u8) as char]
    } else {
        digits(n / 10).push(((48 + n % 10) as u8) as char)
    }
}

/// A number in decimal, with a minus sign if it is negative.
pub open spec fn decimal(n: int) -> Seq<char> {
    if n < 0 {
        seq!['-'] + digits((-n) as nat)
    } else {
        digits(n as nat)
    }
}

/// The text without the white space it starts with.
pub open spec fn trim_start(text: Seq<char>) -> Seq<char>
    decreases text.len(),
{
    if text.len() > 0 && is_space(text[0]) {
        trim_start(text.skip(1))
    } else {
        text
    }
}

/// The text without the white space it ends with.
pub open spec fn trim_end(text: Seq<char>) -> Seq<char>
    decreases text.len(),
{
    if text.len() > 0 && is_space(text.last()) {
        trim_end(text.drop_last())
    } else {
        text
    }
}

/// The interval that a length in minutes names: 1, 5, 15, 30, 60, 240 or
/// 1440, written exactly so.
pub open spec fn code_of(token: Seq<char>) -> Option<Timeframe> {
    if token == seq!['1'] {
        Some(Timeframe::m1)
    } else if token == seq!['5'] {
        Some(Timeframe::m5)
    } else if token == seq!['1', '5'] {
        Some(Timeframe::m15)
    } else if token == seq!['3', '0'] {
        Some(Timeframe::m30)
    } else if token == seq!['6', '0'] {
        Some(Timeframe::h1)
    } else if token == seq!['2', '4', '0'] {
        Some(Timeframe::h4)
    } else if token == seq!['1', '4', '4', '0'] {
        Some(Timeframe::d1)
    } else {
        None
    }
}

/// How many characters come before the first comma.
pub open spec fn first_comma(text: Seq<char>) -> int
    decreases text.len(),
{
    if text.len() == 0 || text[0] == ',' {
        0
    } else {
        1 + first_comma(text.skip(1))
    }
}

/// The intervals named by one piece of a list, white space around it set
/// aside:
/// one interval, or none if the piece names none.
pub open spec fn piece(text: Seq<char>) -> Seq<Timeframe> {
    match code_of(trim_end(trim_start(text))) {
        Some(tf) => seq![tf],
        None => Seq::empty(),
    }
}

/// The intervals of a comma-separated list, in the order written; pieces that
/// name no interval are passed over.
pub open spec fn listed(text: Seq<char>) -> Seq<Timeframe>
    decreases text.len(),
{
    let cut = first_comma(text);
    if 0 <= cut < text.len() {
        piece(text.take(cut)) + listed(text.skip(cut + 1))
    } else {
        piece(text)
    }
}

/// What an interval argument asks for: every interval for `ALL` in any letter
/// case, else the intervals of the list.
pub open spec fn intervals_of(text: Seq<char>) -> Seq<Timeframe> {
    if folds_to(text, seq!['a', 'l', 'l']) {
        crate::chain::hierarchy()
    } else {
        listed(text)
    }
}

proof fn lemma_first_comma(text: Seq<char>, k: int)
    requires
        0 <= k <= text.len(),
        forall|j: int| 0 <= j < k ==> text[j] != ',',
        k < text.len() ==> text[k] == ',',
    ensures
        first_comma(text) == k,
    decreases k,
{
    if k > 0 {
        let rest = text.skip(1);
        assert forall|j: int| 0 <= j < k - 1 implies rest[j] != ',' by {
            assert(rest[j] == text[j + 1]);
        }
        if k < text.len() {
            assert(rest[k - 1] == text[k]);
        }
        lemma_first_comma(rest, k - 1);
    }
}

/// The characters of a string.
pub fn chars_of(text: &str) -> (chars: Vec<char>)
    ensures
        chars@ == text@,
{
    let n: usize = text.unicode_len();
    let mut chars: Vec<char> = Vec::new();
    let mut i: usize = 0;
    while i < n
        invariant
            i <= n,
            n == text@.len(),
            chars@ == text@.take(i as int),
        decreases n - i,
    {
        chars.push(text.get_char(i));
        assert(chars@ =~= text@.take(i + 1));
        i += 1;
    }
    assert(text@.take(n as int) =~= text@);
    chars
}

fn to_lower(c: char) -> (folded: u32)
    ensures
        folded == lower(c),
{
    let u: u32 = c as u32;
    if 65 <= u && u <= 90 {
        u + 32
    } else {
        u
    }
}

fn space(c: char) -> (yes: bool)
    ensures
        yes == is_space(c),
{
    let u: u32 = c as u32;
    (9 <= u && u <= 13) || u == 0x20 || u == 0x85 || u == 0xA0 || u == 0x1680 || (0x2000 <= u
        && u <= 0x200A) || u == 0x2028 || u == 0x2029 || u == 0x202F || u == 0x205F || u == 0x3000
}

/// Whether the token is `buy`.
fn is_buy(token: &[char]) -> (yes: bool)
    ensures
        yes == folds_to(token@, seq!['b', 'u', 'y']),
{
    let ghost word = seq!['b', 'u', 'y'];
    if token.len() != 3 {
        return false;
    }
    let yes = to_lower(token[0]) == 98 && to_lower(token[1]) == 117 && to_lower(token[2]) == 121;
    proof {
        assert(word[0] as u32 == 98 && word[1] as u32 == 117 && word[2] as u32 == 121);
        if !yes {
            assert(lower(token@[0]) != word[0] as u32 || lower(token@[1]) != word[1] as u32
                || lower(token@[2]) != word[2] as u32);
        }
    }
    yes
}

/// Whether the token is `sell`.
fn is_sell(token: &[char]) -> (yes: bool)
    ensures
        yes == folds_to(token@, seq!['s', 'e', 'l', 'l']),
{
    let ghost word = seq!['s', 'e', 'l', 'l'];
    if token.len() != 4 {
        return false;
    }
    let yes = to_lower(token[0]) == 115 && to_lower(token[1]) == 101 && to_lower(token[2]) == 108
        && to_lower(token[3]) == 108;
    proof {
        assert(word[0] as u32 == 115 && word[1] as u32 == 101 && word[2] as u32 == 108 && word[3]
            as u32 == 108);
        if !yes {
            assert(lower(token@[0]) != word[0] as u32 || lower(token@[1]) != word[1] as u32
                || lower(token@[2]) != word[2] as u32 || lower(token@[3]) != word[3] as u32);
        }
    }
    yes
}

/// Whether the text is `all`.
fn is_all(text: &[char]) -> (yes: bool)
    ensures
        yes == folds_to(text@, seq!['a', 'l', 'l']),
{
    let ghost word = seq!['a', 'l', 'l'];
    if text.len() != 3 {
        return false;
    }
    let yes = to_lower(text[0]) == 97 && to_lower(text[1]) == 108 && to_lower(text[2]) == 108;
    proof {
        assert(word[0] as u32 == 97 && word[1] as u32 == 108 && word[2] as u32 == 108);
        if !yes {
            assert(lower(text@[0]) != word[0] as u32 || lower(text@[1]) != word[1] as u32 || lower(
                text@[2],
            ) != word[2] as u32);
        }
    }
    yes
}

/// The side that a token names.
pub fn parse_side(token: &str) -> (side: Side)
    ensures
        side == side_of(token@),
{
    let chars = chars_of(token);
    if is_buy(chars.as_slice()) {
        Side::Buy
    } else if is_sell(chars.as_slice()) {
        Side::Sell
    } else {
        Side::Unknown
    }
}

/// The lengths and characters of the seven interval codes.
proof fn lemma_code_words()
    ensures
        seq!['1'].len() == 1 && seq!['1'][0] == '1',
        seq!['5'].len() == 1 && seq!['5'][0] == '5',
        seq!['1', '5'].len() == 2 && seq!['1', '5'][0] == '1' && seq!['1', '5'][1] == '5',
        seq!['3', '0'].len() == 2 && seq!['3', '0'][0] == '3' && seq!['3', '0'][1] == '0',
        seq!['6', '0'].len() == 2 && seq!['6', '0'][0] == '6' && seq!['6', '0'][1] == '0',
        seq!['2', '4', '0'].len() == 3 && seq!['2', '4', '0'][0] == '2' && seq!['2', '4', '0'][1]
            == '4' && seq!['2', '4', '0'][2] == '0',
        seq!['1', '4', '4', '0'].len() == 4 && seq!['1', '4', '4', '0'][0] == '1' && seq![
            '1',
            '4',
            '4',
            '0',
        ][1] == '4' && seq!['1', '4', '4', '0'][2] == '4' && seq!['1', '4', '4', '0'][3] == '0',
{
}

/// The interval named by the characters from `from` up to `to`.
fn code_at(text: &[char], from: usize, to: usize) -> (code: Option<Timeframe>)
    requires
        from <= to <= text@.len(),
    ensures
        code == code_of(text@.subrange(from as int, to as int)),
{
    let ghost token = text@.subrange(from as int, to as int);
    let len: usize = to - from;
    proof {
        lemma_code_words();
    }
    if len == 1 {
        let a: char = text[from];
        assert(token[0] == a);
        if a == '1' {
            assert(token =~= seq!['1']);
            return Some(Timeframe::m1);
        }
        if a == '5' {
            assert(token =~= seq!['5']);
            return Some(Timeframe::m5);
        }
        return None;
    }
    if len == 2 {
        let a: char = text[from];
        let b: char = text[from + 1];
        assert(token[0] == a && token[1] == b);
        if a == '1' && b == '5' {
            assert(token =~= seq!['1', '5']);
            return Some(Timeframe::m15);
        }
        if a == '3' && b == '0' {
            assert(token =~= seq!['3', '0']);
            return Some(Timeframe::m30);
        }
        if a == '6' && b == '0' {
            assert(token =~= seq!['6', '0']);
            return Some(Timeframe::h1);
        }
        return None;
    }
    if len == 3 {
        let a: char = text[from];
        let b: char = text[from + 1];
        let c: char = text[from + 2];
        assert(token[0] == a && token[1] == b && token[2] == c);
        if a == '2' && b == '4' && c == '0' {
            assert(token =~= seq!['2', '4', '0']);
            return Some(Timeframe::h4);
        }
        return None;
    }
    if len == 4 {
        let a: char = text[from];
        let b: char = text[from + 1];
        let c: char = text[from + 2];
        let d: char = text[from + 3];
        assert(token[0] == a && token[1] == b && token[2] == c && token[3] == d);
        if a == '1' && b == '4' && c == '4' && d == '0' {
            assert(token =~= seq!['1', '4', '4', '0']);
            return Some(Timeframe::d1);
        }
        return None;
    }
    None
}

/// Adds to `out` the interval that the characters from `from` up to `to`
/// name, if they name one.
fn push_piece(text: &[char], from: usize, to: usize, out: &mut Vec<Timeframe>)
    requires
        from <= to <= text@.len(),
    ensures
        final(out)@ == old(out)@ + piece(text@.subrange(from as int, to as int)),
{
    let ghost whole = text@.subrange(from as int, to as int);
    let mut a: usize = from;
    while a < to && space(text[a])
        invariant
            from <= a <= to <= text@.len(),
            trim_start(whole) == trim_start(text@.subrange(a as int, to as int)),
        decreases to - a,
    {
        proof {
            let here = text@.subrange(a as int, to as int);
            assert(here[0] == text@[a as int]);
            assert(here.skip(1) =~= text@.subrange(a + 1, to as int));
        }
        a += 1;
    }
    proof {
        let here = text@.subrange(a as int, to as int);
        if a < to {
            assert(here[0] == text@[a as int]);
        }
        assert(trim_start(whole) == here);
    }
    let ghost left = text@.subrange(a as int, to as int);
    let mut b: usize = to;
    while b > a && space(text[b - 1])
        invariant
            a <= b <= to <= text@.len(),
            trim_end(left) == trim_end(text@.subrange(a as int, b as int)),
        decreases b - a,
    {
        proof {
            let here = text@.subrange(a as int, b as int);
            assert(here.last() == text@[b - 1]);
            assert(here.drop_last() =~= text@.subrange(a as int, b - 1));
        }
        b -= 1;
    }
    proof {
        let here = text@.subrange(a as int, b as int);
        if b > a {
            assert(here.last() == text@[b - 1]);
        }
        assert(trim_end(left) == here);
    }
    match code_at(text, a, b) {
        Some(tf) => {
            out.push(tf);
            assert(out@ =~= old(out)@ + piece(whole));
        },
        None => {
            assert(out@ =~= old(out)@ + piece(whole));
        },
    }
}

/// Reads an interval argument: `ALL`, in any letter case, for every interval,
/// or a comma-separated list of lengths in minutes; what names no interval is
/// passed over.
pub fn parse_intervals(interval_str: &str) -> (intervals: Vec<Timeframe>)
    ensures
        intervals@ == intervals_of(interval_str@),
{
    let chars = chars_of(interval_str);
    let text = chars.as_slice();
    let mut out: Vec<Timeframe> = Vec::new();
    if is_all(text) {
        let mut rank: usize = 0;
        while rank < 7
            invariant
                rank <= 7,
                out@ == crate::chain::hierarchy().take(rank as int),
            decreases 7 - rank,
        {
            out.push(timeframe_of(rank));
            assert(out@ =~= crate::chain::hierarchy().take(rank + 1));
            rank += 1;
        }
        assert(out@ =~= crate::chain::hierarchy());
        return out;
    }
    let mut start: usize = 0;
    let mut i: usize = 0;
    assert(text@.skip(0) =~= text@);
    while i < text.len()
        invariant
            start <= i <= text@.len(),
            forall|j: int| start <= j < i ==> text@[j] != ',',
            out@ + listed(text@.skip(start as int)) == listed(text@),
        decreases text.len() - i,
    {
        if text[i] == ',' {
            proof {
                let rest = text@.skip(start as int);
                assert forall|j: int| 0 <= j < i - start implies rest[j] != ',' by {
                    assert(rest[j] == text@[start + j]);
                }
                assert(rest[i - start] == text@[i as int]);
                lemma_first_comma(rest, i - start);
                assert(rest.take(i - start) =~= text@.subrange(start as int, i as int));
                assert(rest.skip(i - start + 1) =~= text@.skip(i + 1));
            }
            let ghost before = out@;
            push_piece(text, start, i, &mut out);
            proof {
                let p = piece(text@.subrange(start as int, i as int));
                let tail = listed(text@.skip(i + 1));
                assert((before + p) + tail =~= before + (p + tail));
            }
            start = i + 1;
        }
        i += 1;
    }
    proof {
        let rest = text@.skip(start as int);
        assert forall|j: int| 0 <= j < rest.len() implies rest[j] != ',' by {
            assert(rest[j] == text@[start + j]);
        }
        lemma_first_comma(rest, rest.len() as int);
        assert(rest =~= text@.subrange(start as int, text@.len() as int));
    }
    push_piece(text, start, text.len(), &mut out);
    out
}

/// The rank of the shortest interval in a list; that of `d1` for an empty
/// list.
pub open spec fn lowest_rank(timeframes: Seq<Timeframe>) -> nat
    decreases timeframes.len(),
{
    if timeframes.len() == 0 {
        6
    } else if timeframes.last().rank() < lowest_rank(timeframes.drop_last()) {
        timeframes.last().rank()
    } else {
        lowest_rank(timeframes.drop_last())
    }
}

/// The interval that a batch folds its trades into: the shortest of those
/// asked for, `m1` if none is.
pub fn base_interval(intervals: &[Timeframe]) -> (base: Timeframe)
    ensures
        intervals@.len() == 0 ==> base == Timeframe::m1,
        intervals@.len() > 0 ==> base.rank() == lowest_rank(intervals@),
{
    if intervals.len() == 0 {
        return Timeframe::m1;
    }
    let mut base: Timeframe = Timeframe::d1;
    let mut i: usize = 0;
    assert(intervals@.take(0) =~= Seq::<Timeframe>::empty());
    while i < intervals.len()
        invariant
            i <= intervals.len(),
            base.rank() == lowest_rank(intervals@.take(i as int)),
        decreases intervals.len() - i,
    {
        proof {
            assert(intervals@.take(i + 1).drop_last() =~= intervals@.take(i as int));
            assert(intervals@.take(i + 1).last() == intervals@[i as int]);
        }
        if intervals[i].index() < base.index() {
            base = intervals[i];
        }
        i += 1;
    }
    assert(intervals@.take(intervals@.len() as int) =~= intervals@);
    base
}

/// `i64`'s `Display`, through `format!`: the number in decimal digits, with a
/// leading minus sign when it is negative.
#[verifier::external_body]
fn decimal_text(n: i64) -> (text: String)
    ensures
        text@ == decimal(n as int),
{
    format!("{}", n)
}

/// One input row as adapters read it. Missing text fields are empty.
#[derive(Debug, PartialEq, Eq)]
pub struct CsvTrade {
    pub timestamp: i64,
    pub price: u64,
    pub amount: u64,
    pub side: String,
    pub base: String,
    pub quote: String,
    pub exchange: String,
}

impl CsvTrade {
    /// The trade of this row: a spot trade whose id is the timestamp in
    /// decimal.
    pub fn to_trade(&self) -> (trade: Trade)
        ensures
            trade.instrument.pair.base_id == self.base,
            trade.instrument.pair.quote_id == self.quote,
            trade.instrument.exchange == self.exchange,
            trade.instrument.market_type == MarketType::Spot,
            trade.id@ == decimal(self.timestamp as int),
            trade.price == self.price,
            trade.amount == self.amount,
            trade.side == side_of(self.side@),
            trade.timestamp == self.timestamp,
    {
        Trade {
            instrument: Instrument {
                pair: Pair { base_id: self.base.clone(), quote_id: self.quote.clone() },
                exchange: self.exchange.clone(),
                market_type: MarketType::Spot,
            },
            id: decimal_text(self.timestamp),
            price: self.price,
            amount: self.amount,
            side: parse_side(self.side.as_str()),
            timestamp: self.timestamp,
        }
    }
}

} // verus!
