use vstd::prelude::*;

verus! {

/// The chunk size used when a fixed chunker is named without a size.
pub const DEFAULT_CHUNKS_SIZE: usize = 262144;

/// The largest chunk size a fixed chunker accepts.
pub const DEFAULT_CHUNK_SIZE_LIMIT: usize = 1048576;

/// How file content is cut into chunks.
#[derive(Debug, Clone, Copy, PartialEq, Eq, Structural)]
pub enum ChunkerConfig {
    /// Chunks of one fixed size.
    Fixed(usize),
    /// Content-defined chunks.
    Rabin,
}

/// Why a chunker description was refused.
#[derive(Debug, Clone, Copy, PartialEq, Eq, Structural)]
pub enum ChunkerConfigError {
    /// The description names no known chunker.
    UnknownChunker,
    /// The size after `fixed-` is not a decimal number that fits in `usize`.
    InvalidChunkSize,
    /// The size after `fixed-` exceeds the limit.
    ChunkSizeTooLarge,
}

pub open spec fn is_digit(c: char) -> bool {
    '0' <= c && c <= '9'
}

pub open spec fn digit_value(c: char) -> nat {
    (c as u32 - '0' as u32) as nat
}

/// The value of a string of decimal digits, most significant first.
pub open spec fn digits_value(s: Seq<char>) -> nat
    decreases s.len(),
{
    if s.len() == 0 {
        0
    } else {
        digits_value(s.drop_last()) * 10 + digit_value(s.last())
    }
}

/// A decimal unsigned number as std's integer parser reads it: an optional `+`
/// and then one or more digits.
pub open spec fn is_decimal(s: Seq<char>) -> bool {
    let d = decimal_digits(s);
    d.len() > 0 && forall|i: int| 0 <= i < d.len() ==> is_digit(#[trigger] d[i])
}

pub open spec fn decimal_digits(s: Seq<char>) -> Seq<char> {
    if s.len() > 0 && s[0] == '+' {
        s.drop_first()
    } else {
        s
    }
}

pub open spec fn fixed_prefix() -> Seq<char> {
    seq!['f', 'i', 'x', 'e', 'd']
}

pub open spec fn rabin_name() -> Seq<char> {
    seq!['r', 'a', 'b', 'i', 'n']
}

/// What a chunker description denotes.
pub open spec fn parse_spec(s: Seq<char>) -> Result<ChunkerConfig, ChunkerConfigError> {
    if s == rabin_name() {
        Ok(ChunkerConfig::Rabin)
    } else if s == fixed_prefix() {
        Ok(ChunkerConfig::Fixed(DEFAULT_CHUNKS_SIZE))
    } else if s.len() > 6 && s.subrange(0, 5) == fixed_prefix() && s[5] == '-' {
        let size = s.subrange(6, s.len() as int);
        if !is_decimal(size) || digits_value(decimal_digits(size)) > usize::MAX {
            Err(ChunkerConfigError::InvalidChunkSize)
        } else if digits_value(decimal_digits(size)) > DEFAULT_CHUNK_SIZE_LIMIT {
            Err(ChunkerConfigError::ChunkSizeTooLarge)
        } else {
            Ok(ChunkerConfig::Fixed(digits_value(decimal_digits(size)) as usize))
        }
    } else if s.len() == 6 && s.subrange(0, 5) == fixed_prefix() && s[5] == '-' {
        Err(ChunkerConfigError::InvalidChunkSize)
    } else {
        Err(ChunkerConfigError::UnknownChunker)
    }
}

proof fn lemma_digits_value_push(s: Seq<char>, c: char)
    ensures
        digits_value(s.push(c)) == digits_value(s) * 10 + digit_value(c),
{
    assert(s.push(c).drop_last() =~= s);
}

/// Reads `s[from..]` as a decimal number, or `None` where it is not one or
/// does not fit in `usize`.
fn parse_decimal(s: &str, from: usize) -> (r: Option<usize>)
    requires
        from <= s@.len(),
    ensures
        ({
            let t = s@.subrange(from as int, s@.len() as int);
            match r {
                Some(v) => is_decimal(t) && digits_value(decimal_digits(t)) == v,
                None => !is_decimal(t) || digits_value(decimal_digits(t)) > usize::MAX,
            }
        }),
{
    let ghost t = s@.subrange(from as int, s@.len() as int);
    let len = s.unicode_len();
    let mut start = from;
    if start < len && s.get_char(start) == '+' {
        start = start + 1;
    }
    let ghost d = s@.subrange(start as int, s@.len() as int);
    assert(d =~= decimal_digits(t));
    if start == len {
        return None;
    }
    let mut acc: usize = 0;
    let mut i = start;
    while i < len
        invariant
            start <= i <= len,
            len == s@.len(),
            d == s@.subrange(start as int, len as int),
            t == s@.subrange(from as int, len as int),
            d == decimal_digits(t),
            forall|k: int| start <= k < i ==> is_digit(#[trigger] s@[k]),
            acc as nat == digits_value(s@.subrange(start as int, i as int)),
        decreases len - i,
    {
        let c = s.get_char(i);
        if !('0' <= c && c <= '9') {
            assert(d[i - start] == c);
            assert(!is_digit(d[i - start]));
            return None;
        }
        let dv = (c as u32 - '0' as u32) as usize;
        proof {
            lemma_digits_value_push(s@.subrange(start as int, i as int), c);
            assert(s@.subrange(start as int, i as int).push(c) =~= s@.subrange(start as int, i + 1));
        }
        match acc.checked_mul(10) {
            Some(m) => match m.checked_add(dv) {
                Some(v) => {
                    acc = v;
                },
                None => {
                    proof {
                        if is_decimal(t) {
                            lemma_digits_prefix_bound(d, (i + 1 - start) as nat);
                            assert(d.subrange(0, i + 1 - start) =~= s@.subrange(start as int, i + 1));
                        }
                    }
                    return None;
                },
            },
            None => {
                proof {
                        if is_decimal(t) {
                            lemma_digits_prefix_bound(d, (i + 1 - start) as nat);
                            assert(d.subrange(0, i + 1 - start) =~= s@.subrange(start as int, i + 1));
                        }
                    }
                return None;
            },
        }
        i = i + 1;
    }
    assert(s@.subrange(start as int, i as int) =~= d);
    Some(acc)
}

/// A string of digits is worth at least any of its prefixes.
proof fn lemma_digits_prefix_bound(d: Seq<char>, n: nat)
    requires
        n <= d.len(),
        forall|i: int| 0 <= i < d.len() ==> is_digit(#[trigger] d[i]),
    ensures
        digits_value(d) >= digits_value(d.subrange(0, n as int)),
    decreases d.len(),
{
    if n < d.len() {
        lemma_digits_prefix_bound(d.drop_last(), n);
        assert(d.drop_last().subrange(0, n as int) =~= d.subrange(0, n as int));
    } else {
        assert(d.subrange(0, n as int) =~= d);
    }
}

fn fixed_char(i: usize) -> (c: char)
    requires
        i < 5,
    ensures
        c == fixed_prefix()[i as int],
{
    if i == 0 {
        'f'
    } else if i == 1 {
        'i'
    } else if i == 2 {
        'x'
    } else if i == 3 {
        'e'
    } else {
        'd'
    }
}

fn rabin_char(i: usize) -> (c: char)
    requires
        i < 5,
    ensures
        c == rabin_name()[i as int],
{
    if i == 0 {
        'r'
    } else if i == 1 {
        'a'
    } else if i == 2 {
        'b'
    } else if i == 3 {
        'i'
    } else {
        'n'
    }
}

impl ChunkerConfig {
    /// Reads a chunker description: `rabin`, `fixed`, or `fixed-<size>`.
    pub fn parse(s: &str) -> (r: Result<ChunkerConfig, ChunkerConfigError>)
        ensures
            r == parse_spec(s@),
    {
        let len = s.unicode_len();
        if len == 5 {
            let mut is_rabin = true;
            let mut is_fixed = true;
            let mut i: usize = 0;
            while i < 5
                invariant
                    i <= 5,
                    len == s@.len() == 5,
                    is_rabin == (forall|k: int| 0 <= k < i ==> s@[k] == rabin_name()[k]),
                    is_fixed == (forall|k: int| 0 <= k < i ==> s@[k] == fixed_prefix()[k]),
                decreases 5 - i,
            {
                let c = s.get_char(i);
                let r = rabin_char(i);
                let f = fixed_char(i);
                is_rabin = is_rabin && c == r;
                is_fixed = is_fixed && c == f;
                i = i + 1;
            }
            if is_rabin {
                assert(s@ =~= rabin_name());
                return Ok(ChunkerConfig::Rabin);
            }
            assert(s@ != rabin_name());
            if is_fixed {
                assert(s@ =~= fixed_prefix());
                return Ok(ChunkerConfig::Fixed(DEFAULT_CHUNKS_SIZE));
            }
            assert(s@ != fixed_prefix());
            return Err(ChunkerConfigError::UnknownChunker);
        }
        if len < 6 {
            assert(s@ != rabin_name() && s@ != fixed_prefix());
            return Err(ChunkerConfigError::UnknownChunker);
        }
        let mut i: usize = 0;
        while i < 5
            invariant
                i <= 5,
                6 <= len == s@.len(),
                s@.subrange(0, i as int) == fixed_prefix().subrange(0, i as int),
            decreases 5 - i,
        {
            let c = s.get_char(i);
            let f = fixed_char(i);
            if c != f {
                assert(s@.subrange(0, 5)[i as int] != fixed_prefix()[i as int]);
                return Err(ChunkerConfigError::UnknownChunker);
            }
            assert(s@.subrange(0, i + 1) =~= fixed_prefix().subrange(0, i + 1));
            i = i + 1;
        }
        assert(fixed_prefix().subrange(0, 5) =~= fixed_prefix());
        if s.get_char(5) != '-' {
            return Err(ChunkerConfigError::UnknownChunker);
        }
        if len == 6 {
            return Err(ChunkerConfigError::InvalidChunkSize);
        }
        match parse_decimal(s, 6) {
            None => Err(ChunkerConfigError::InvalidChunkSize),
            Some(size) => {
                if size > DEFAULT_CHUNK_SIZE_LIMIT {
                    Err(ChunkerConfigError::ChunkSizeTooLarge)
                } else {
                    Ok(ChunkerConfig::Fixed(size))
                }
            },
        }
    }
}

impl std::str::FromStr for ChunkerConfig {
    type Err = ChunkerConfigError;

    fn from_str(s: &str) -> Result<ChunkerConfig, ChunkerConfigError> {
        ChunkerConfig::parse(s)
    }
}

} // verus!
