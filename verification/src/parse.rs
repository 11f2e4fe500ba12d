use vstd::prelude::*;

verus! {

/// Why a line of edge-list text was rejected. An I/O failure while reading
/// the file is the reader's concern, not this parser's; the reader also
/// knows the line number to attach.
#[derive(Clone, Copy, Debug, PartialEq, Eq, Structural)]
pub enum ParseError {
    /// Fewer than two whitespace-separated tokens on the line.
    MalformedLine,
    /// A token that is not a plain decimal number, or one too large.
    InvalidInteger,
}

/// ASCII whitespace: space, tab, line feed, form feed, carriage return.
pub open spec fn is_ws(b: u8) -> bool {
    b == 32 || b == 9 || b == 10 || b == 12 || b == 13
}

/// An ASCII decimal digit.
pub open spec fn is_digit(b: u8) -> bool {
    48 <= b <= 57
}

/// The first position at or after `i` holding a non-whitespace byte, or the
/// end of the line.
pub open spec fn skip_ws(s: Seq<u8>, i: int) -> int
    decreases s.len() - i when 0 <= i <= s.len()
{
    if i >= s.len() {
        s.len() as int
    } else if is_ws(s[i]) {
        skip_ws(s, i + 1)
    } else {
        i
    }
}

/// The first position at or after `i` holding a whitespace byte, or the end
/// of the line: the end of the token that starts at `i`.
pub open spec fn tok_end(s: Seq<u8>, i: int) -> int
    decreases s.len() - i when 0 <= i <= s.len()
{
    if i >= s.len() {
        s.len() as int
    } else if is_ws(s[i]) {
        i
    } else {
        tok_end(s, i + 1)
    }
}

/// The bytes from `i` (inclusive) to `j` (exclusive) are all digits.
pub open spec fn digits_ok(s: Seq<u8>, i: int, j: int) -> bool {
    forall|k: int| i <= k < j ==> is_digit(#[trigger] s[k])
}

/// The decimal value of the bytes from `i` to `j`, read most significant
/// first.
pub open spec fn digits_val(s: Seq<u8>, i: int, j: int) -> nat
    decreases j - i,
{
    if j <= i {
        0
    } else {
        digits_val(s, i, j - 1) * 10 + (s[j - 1] - 48) as nat
    }
}

/// What parsing one edge line yields. The first two whitespace-separated
/// tokens are taken and anything after them is ignored; a missing token is
/// reported before a bad one, and each token must be plain decimal digits
/// with a value that fits the identifier type.
pub open spec fn spec_parse_edge(s: Seq<u8>) -> Result<(usize, usize), ParseError> {
    let i1 = skip_ws(s, 0);
    if i1 == s.len() {
        Err(ParseError::MalformedLine)
    } else {
        let j1 = tok_end(s, i1);
        let i2 = skip_ws(s, j1);
        if i2 == s.len() {
            Err(ParseError::MalformedLine)
        } else {
            let j2 = tok_end(s, i2);
            if !digits_ok(s, i1, j1) || digits_val(s, i1, j1) > usize::MAX {
                Err(ParseError::InvalidInteger)
            } else if !digits_ok(s, i2, j2) || digits_val(s, i2, j2) > usize::MAX {
                Err(ParseError::InvalidInteger)
            } else {
                Ok((digits_val(s, i1, j1) as usize, digits_val(s, i2, j2) as usize))
            }
        }
    }
}

/// A longer digit run never has a smaller value.
proof fn lemma_digits_val_mono(s: Seq<u8>, i: int, k: int, j: int)
    requires
        i <= k <= j,
    ensures
        digits_val(s, i, j) >= digits_val(s, i, k),
    decreases j - k,
{
    if k < j {
        lemma_digits_val_mono(s, i, k + 1, j);
        assert(digits_val(s, i, k + 1) == digits_val(s, i, k) * 10 + (s[k] - 48) as nat);
    }
}

/// Advances over whitespace.
#[verifier::loop_isolation(false)]
fn skip_ws_exec(s: &[u8], from: usize) -> (r: usize)
    requires
        from <= s@.len(),
    ensures
        r == skip_ws(s@, from as int),
        from <= r <= s@.len(),
{
    let mut i: usize = from;
    while i < s.len()
        invariant
            from <= i <= s@.len(),
            skip_ws(s@, from as int) == skip_ws(s@, i as int),
        decreases s@.len() - i,
    {
        if !(s[i] == 32 || s[i] == 9 || s[i] == 10 || s[i] == 12 || s[i] == 13) {
            return i;
        }
        i = i + 1;
    }
    i
}

/// Advances to the end of a token.
#[verifier::loop_isolation(false)]
fn tok_end_exec(s: &[u8], from: usize) -> (r: usize)
    requires
        from <= s@.len(),
    ensures
        r == tok_end(s@, from as int),
        from <= r <= s@.len(),
{
    let mut i: usize = from;
    while i < s.len()
        invariant
            from <= i <= s@.len(),
            tok_end(s@, from as int) == tok_end(s@, i as int),
        decreases s@.len() - i,
    {
        if s[i] == 32 || s[i] == 9 || s[i] == 10 || s[i] == 12 || s[i] == 13 {
            return i;
        }
        i = i + 1;
    }
    i
}

/// Reads the token at `i..j` as a decimal number, refusing non-digit bytes
/// and values that do not fit.
#[verifier::loop_isolation(false)]
fn parse_token(s: &[u8], i: usize, j: usize) -> (r: Option<usize>)
    requires
        i <= j <= s@.len(),
    ensures
        match r {
            Some(v) => digits_ok(s@, i as int, j as int) && v == digits_val(s@, i as int, j as int),
            None => !digits_ok(s@, i as int, j as int) || digits_val(s@, i as int, j as int)
                > usize::MAX,
        },
{
    let mut acc: usize = 0;
    let mut k: usize = i;
    while k < j
        invariant
            i <= k <= j,
            digits_ok(s@, i as int, k as int),
            acc == digits_val(s@, i as int, k as int),
        decreases j - k,
    {
        let b = s[k];
        if b < 48 || b > 57 {
            assert(!is_digit(s@[k as int]));
            return None;
        }
        let shifted = match acc.checked_mul(10) {
            Some(x) => x,
            None => {
                proof {
                    assert(digits_val(s@, i as int, k as int + 1) > usize::MAX);
                    lemma_digits_val_mono(s@, i as int, k as int + 1, j as int);
                }
                return None;
            }
        };
        let next = match shifted.checked_add((b - 48) as usize) {
            Some(x) => x,
            None => {
                proof {
                    assert(digits_val(s@, i as int, k as int + 1) > usize::MAX);
                    lemma_digits_val_mono(s@, i as int, k as int + 1, j as int);
                }
                return None;
            }
        };
        acc = next;
        k = k + 1;
    }
    Some(acc)
}

/// Parses one line of edge-list text into a `(from, to)` vertex pair: the
/// first two whitespace-separated decimal tokens, any further text ignored.
/// Returns exactly what `spec_parse_edge` assigns to the line.
pub fn parse_edge_line(line: &[u8]) -> (r: Result<(usize, usize), ParseError>)
    ensures
        r == spec_parse_edge(line@),
{
    let i1 = skip_ws_exec(line, 0);
    if i1 == line.len() {
        return Err(ParseError::MalformedLine);
    }
    let j1 = tok_end_exec(line, i1);
    let i2 = skip_ws_exec(line, j1);
    if i2 == line.len() {
        return Err(ParseError::MalformedLine);
    }
    let j2 = tok_end_exec(line, i2);
    let from = match parse_token(line, i1, j1) {
        Some(v) => v,
        None => {
            return Err(ParseError::InvalidInteger);
        }
    };
    let to = match parse_token(line, i2, j2) {
        Some(v) => v,
        None => {
            return Err(ParseError::InvalidInteger);
        }
    };
    Ok((from, to))
}

} // verus!
