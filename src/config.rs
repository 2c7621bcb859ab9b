//! The description of a player on the command line: a name (`human` or
//! `h`; `perfect`, `p`, `ai` or `minmax`), then for a perfect player an
//! optional `:` and a search depth, as in `perfect:7`. Text after a second
//! `:` is ignored, and so is a depth given to a human.
use vstd::prelude::*;
use vstd::string::StringSliceAdditionalSpecFns;

verus! {

/// Who takes a side.
#[derive(Debug, Clone, Copy, PartialEq, Eq, Structural)]
pub enum PlayerConfig {
    Human,
    Perfect { depth: Option<usize> },
}

/// Why a description was refused.
#[derive(Debug, Clone, Copy, PartialEq, Eq, Structural)]
pub enum ConfigError {
    /// The name is none of the known ones.
    InvalidPlayer,
    /// The text after the `:` is no decimal number that fits a `usize`.
    InvalidDepth,
}

/// The first `:` at or after `i`, or the end of `s`.
pub open spec fn colon_from(s: Seq<u8>, i: int) -> int
    decreases s.len() - i,
{
    if i >= s.len() {
        s.len() as int
    } else if s[i] == 58u8 {
        i
    } else {
        colon_from(s, i + 1)
    }
}

/// The text before the first `:`.
pub open spec fn name_field(s: Seq<u8>) -> Seq<u8> {
    s.subrange(0, colon_from(s, 0))
}

/// The text between the first `:` and the next one, if there is a first.
pub open spec fn depth_field(s: Seq<u8>) -> Option<Seq<u8>> {
    let k = colon_from(s, 0);
    if k < s.len() {
        Some(s.subrange(k + 1, colon_from(s, k + 1)))
    } else {
        None
    }
}

pub open spec fn word_human() -> Seq<u8> {
    seq![104u8, 117, 109, 97, 110]
}

pub open spec fn word_h() -> Seq<u8> {
    seq![104u8]
}

pub open spec fn word_perfect() -> Seq<u8> {
    seq![112u8, 101, 114, 102, 101, 99, 116]
}

pub open spec fn word_p() -> Seq<u8> {
    seq![112u8]
}

pub open spec fn word_ai() -> Seq<u8> {
    seq![97u8, 105]
}

pub open spec fn word_minmax() -> Seq<u8> {
    seq![109u8, 105, 110, 109, 97, 120]
}

pub open spec fn is_digit(b: u8) -> bool {
    48 <= b <= 57
}

/// The value of a string of decimal digits.
pub open spec fn decimal(d: Seq<u8>) -> int
    decreases d.len(),
{
    if d.len() == 0 {
        0
    } else {
        decimal(d.drop_last()) * 10 + (d.last() - 48)
    }
}

/// `t` without a leading `+`.
pub open spec fn unsigned_part(t: Seq<u8>) -> Seq<u8> {
    if t.len() > 0 && t[0] == 43u8 {
        t.drop_first()
    } else {
        t
    }
}

pub open spec fn all_digits(d: Seq<u8>) -> bool {
    forall|i: int| 0 <= i < d.len() ==> is_digit(#[trigger] d[i])
}

/// The `usize` that `t` spells: an optional `+`, then one or more decimal
/// digits whose value fits.
pub open spec fn usize_of(t: Seq<u8>) -> Option<usize> {
    let d = unsigned_part(t);
    if d.len() > 0 && all_digits(d) && decimal(d) <= usize::MAX {
        Some(decimal(d) as usize)
    } else {
        None
    }
}

/// What the description `s` asks for.
pub open spec fn config_of(s: Seq<u8>) -> Result<PlayerConfig, ConfigError> {
    let n = name_field(s);
    if n == word_human() || n == word_h() {
        Ok(PlayerConfig::Human)
    } else if n == word_perfect() || n == word_p() || n == word_ai() || n == word_minmax() {
        match depth_field(s) {
            None => Ok(PlayerConfig::Perfect { depth: None }),
            Some(t) => match usize_of(t) {
                Some(v) => Ok(PlayerConfig::Perfect { depth: Some(v) }),
                None => Err(ConfigError::InvalidDepth),
            },
        }
    } else {
        Err(ConfigError::InvalidPlayer)
    }
}

proof fn lemma_colon_from(s: Seq<u8>, i: int)
    requires
        0 <= i <= s.len(),
    ensures
        i <= colon_from(s, i) <= s.len(),
    decreases s.len() - i,
{
    if i < s.len() && s[i] != 58u8 {
        lemma_colon_from(s, i + 1);
    }
}

proof fn lemma_decimal_nonneg(d: Seq<u8>)
    requires
        forall|i: int| 0 <= i < d.len() ==> is_digit(#[trigger] d[i]),
    ensures
        decimal(d) >= 0,
    decreases d.len(),
{
    if d.len() > 0 {
        assert(is_digit(d[d.len() - 1]));
        lemma_decimal_nonneg(d.drop_last());
    }
}

proof fn lemma_decimal_grows(d: Seq<u8>, k: int)
    requires
        0 <= k <= d.len(),
        forall|i: int| 0 <= i < d.len() ==> is_digit(#[trigger] d[i]),
    ensures
        decimal(d.subrange(0, k)) <= decimal(d),
    decreases d.len() - k,
{
    if k < d.len() {
        lemma_decimal_grows(d, k + 1);
        assert(d.subrange(0, k + 1).drop_last() =~= d.subrange(0, k));
        assert(is_digit(d[k]));
        lemma_decimal_nonneg(d.subrange(0, k));
    } else {
        assert(d.subrange(0, k) =~= d);
    }
}

/// The first `:` at or after `start`.
fn find_colon(s: &[u8], start: usize) -> (r: usize)
    requires
        start <= s@.len(),
    ensures
        r == colon_from(s@, start as int),
{
    let mut i = start;
    while i < s.len()
        invariant
            start <= i <= s@.len(),
            colon_from(s@, start as int) == colon_from(s@, i as int),
        decreases s@.len() - i,
    {
        if s[i] == 58u8 {
            return i;
        }
        i = i + 1;
    }
    i
}

/// Whether `s[lo..hi]` is `word`.
fn field_is(s: &[u8], lo: usize, hi: usize, word: &[u8]) -> (r: bool)
    requires
        lo <= hi <= s@.len(),
    ensures
        r == (s@.subrange(lo as int, hi as int) == word@),
{
    if hi - lo != word.len() {
        return false;
    }
    let mut i: usize = 0;
    while i < word.len()
        invariant
            lo <= hi <= s@.len(),
            hi - lo == word@.len(),
            0 <= i <= word@.len(),
            forall|j: int| 0 <= j < i ==> s@[lo + j] == word@[j],
        decreases word@.len() - i,
    {
        if s[lo + i] != word[i] {
            assert(s@.subrange(lo as int, hi as int)[i as int] != word@[i as int]);
            return false;
        }
        i = i + 1;
    }
    assert(s@.subrange(lo as int, hi as int) =~= word@);
    true
}

/// The `usize` that `s[lo..hi]` spells.
fn parse_usize(s: &[u8], lo: usize, hi: usize) -> (r: Option<usize>)
    requires
        lo <= hi <= s@.len(),
    ensures
        r == usize_of(s@.subrange(lo as int, hi as int)),
{
    let ghost t = s@.subrange(lo as int, hi as int);
    let start = if lo < hi && s[lo] == 43u8 {
        lo + 1
    } else {
        lo
    };
    let ghost d = s@.subrange(start as int, hi as int);
    assert(d =~= unsigned_part(t));
    if start == hi {
        return None;
    }
    let mut value: usize = 0;
    let mut i = start;
    while i < hi
        invariant
            lo <= start <= i <= hi <= s@.len(),
            d == s@.subrange(start as int, hi as int),
            t == s@.subrange(lo as int, hi as int),
            d == unsigned_part(t),
            forall|j: int| 0 <= j < i - start ==> is_digit(#[trigger] d[j]),
            value == decimal(d.subrange(0, i - start)),
        decreases hi - i,
    {
        let b = s[i];
        if b < 48u8 || b > 57u8 {
            assert(!is_digit(d[i - start]));
            assert(!all_digits(d));
            return None;
        }
        let ghost k = i - start;
        assert(d.subrange(0, k + 1).drop_last() =~= d.subrange(0, k));
        let digit = (b - 48u8) as usize;
        if value > (usize::MAX - digit) / 10 {
            proof {
                assert(decimal(d.subrange(0, k + 1)) > usize::MAX) by (nonlinear_arith)
                    requires
                        decimal(d.subrange(0, k + 1)) == value * 10 + digit,
                        value > (usize::MAX - digit) / 10,
                        digit <= 9,
                ;
                if all_digits(d) {
                    lemma_decimal_grows(d, k + 1);
                }
            }
            return None;
        }
        proof {
            assert(value * 10 + digit <= usize::MAX) by (nonlinear_arith)
                requires
                    value <= (usize::MAX - digit) / 10,
                    digit <= 9,
            ;
        }
        value = value * 10 + digit;
        i = i + 1;
    }
    assert(d.subrange(0, hi - start) =~= d);
    Some(value)
}

impl PlayerConfig {
    /// Reads a description of a player.
    pub fn parse(arg: &str) -> (r: Result<PlayerConfig, ConfigError>)
        ensures
            r == config_of(arg.spec_bytes()),
    {
        let s = arg.as_bytes();
        let end = find_colon(s, 0);
        proof {
            lemma_colon_from(s@, 0);
        }
        let human: [u8; 5] = [104, 117, 109, 97, 110];
        let h: [u8; 1] = [104];
        let perfect: [u8; 7] = [112, 101, 114, 102, 101, 99, 116];
        let p: [u8; 1] = [112];
        let ai: [u8; 2] = [97, 105];
        let minmax: [u8; 6] = [109, 105, 110, 109, 97, 120];
        assert(human@ =~= word_human());
        assert(h@ =~= word_h());
        assert(perfect@ =~= word_perfect());
        assert(p@ =~= word_p());
        assert(ai@ =~= word_ai());
        assert(minmax@ =~= word_minmax());
        if field_is(s, 0, end, &human) || field_is(s, 0, end, &h) {
            return Ok(PlayerConfig::Human);
        }
        if !(field_is(s, 0, end, &perfect) || field_is(s, 0, end, &p) || field_is(s, 0, end, &ai)
            || field_is(s, 0, end, &minmax)) {
            return Err(ConfigError::InvalidPlayer);
        }
        if end == s.len() {
            return Ok(PlayerConfig::Perfect { depth: None });
        }
        let depth_end = find_colon(s, end + 1);
        proof {
            lemma_colon_from(s@, end + 1);
        }
        match parse_usize(s, end + 1, depth_end) {
            Some(depth) => Ok(PlayerConfig::Perfect { depth: Some(depth) }),
            None => Err(ConfigError::InvalidDepth),
        }
    }
}

} // verus!
