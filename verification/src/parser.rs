//! Parsing a reroll selection typed by the player.
//!
//! The selection language, over the input with Unicode whitespace trimmed
//! from both ends: `x` (either case) keeps the roll; `0` rerolls
//! everything; otherwise a list of die numbers 1-6, separated by spaces or
//! commas, selects the dice to reroll (1-based, so die number 1 is index
//! 0). Anything else is a recoverable error naming the first offending
//! token, folded to lower case.

use vstd::prelude::*;
use vstd::string::StringSliceAdditionalSpecFns;

verus! {

/// ASCII whitespace, encoded in one byte.
pub open spec fn is_ws_byte(b: u8) -> bool {
    b == 9 || b == 10 || b == 11 || b == 12 || b == 13 || b == 32
}

/// The UTF-8 encoding of a two-byte Unicode whitespace character:
/// U+0085 (next line) or U+00A0 (no-break space).
pub open spec fn is_ws2_bytes(a: u8, b: u8) -> bool {
    a == 0xC2 && (b == 0x85 || b == 0xA0)
}

/// The UTF-8 encoding of a three-byte Unicode whitespace character:
/// U+1680, U+2000 through U+200A, U+2028, U+2029, U+202F, U+205F or U+3000.
pub open spec fn is_ws3_bytes(a: u8, b: u8, c: u8) -> bool {
    ||| (a == 0xE1 && b == 0x9A && c == 0x80)
    ||| (a == 0xE2 && b == 0x80 && (0x80 <= c <= 0x8A || c == 0xA8 || c == 0xA9 || c == 0xAF))
    ||| (a == 0xE2 && b == 0x81 && c == 0x9F)
    ||| (a == 0xE3 && b == 0x80 && c == 0x80)
}

/// A token separator: space or comma.
pub open spec fn is_sep_byte(b: u8) -> bool {
    b == 32 || b == 44
}

/// An ASCII decimal digit.
pub open spec fn is_digit_byte(b: u8) -> bool {
    48 <= b <= 57
}

/// The byte length of the whitespace character the input starts with, or
/// zero when it starts with anything else.
pub open spec fn ws_start_unit(s: Seq<u8>) -> int {
    if s.len() >= 1 && is_ws_byte(s[0]) {
        1
    } else if s.len() >= 2 && is_ws2_bytes(s[0], s[1]) {
        2
    } else if s.len() >= 3 && is_ws3_bytes(s[0], s[1], s[2]) {
        3
    } else {
        0
    }
}

/// The byte length of the whitespace character the input ends with, or
/// zero when it ends with anything else. On well-formed UTF-8 the cases
/// cannot overlap: an ASCII byte never closes a multi-byte character, and
/// the two- and three-byte whitespace encodings differ in their lead bytes.
pub open spec fn ws_end_unit(s: Seq<u8>) -> int {
    if s.len() >= 1 && is_ws_byte(s[s.len() - 1]) {
        1
    } else if s.len() >= 2 && is_ws2_bytes(s[s.len() - 2], s[s.len() - 1]) {
        2
    } else if s.len() >= 3 && is_ws3_bytes(s[s.len() - 3], s[s.len() - 2], s[s.len() - 1]) {
        3
    } else {
        0
    }
}

/// The input with leading whitespace characters removed.
pub open spec fn trim_start_bytes(s: Seq<u8>) -> Seq<u8>
    decreases s.len(),
{
    let k = ws_start_unit(s);
    if k > 0 {
        trim_start_bytes(s.skip(k))
    } else {
        s
    }
}

/// The input with trailing whitespace characters removed.
pub open spec fn trim_end_bytes(s: Seq<u8>) -> Seq<u8>
    decreases s.len(),
{
    let k = ws_end_unit(s);
    if k > 0 {
        trim_end_bytes(s.take(s.len() - k))
    } else {
        s
    }
}

/// The input with whitespace trimmed from both ends, where whitespace means
/// the UTF-8 encodings of the Unicode whitespace characters.
pub open spec fn trimmed_of(s: Seq<u8>) -> Seq<u8> {
    trim_end_bytes(trim_start_bytes(s))
}

/// The longest separator-free prefix: the first token of the input.
pub open spec fn first_token(b: Seq<u8>) -> Seq<u8>
    decreases b.len(),
{
    if b.len() == 0 || is_sep_byte(b[0]) {
        Seq::empty()
    } else {
        seq![b[0]] + first_token(b.drop_first())
    }
}

/// The number a digit string denotes.
pub open spec fn digits_value(d: Seq<u8>) -> int
    decreases d.len(),
{
    if d.len() == 0 {
        0
    } else {
        digits_value(d.drop_last()) * 10 + (d.last() - 48)
    }
}

/// Every byte is a decimal digit.
pub open spec fn all_digits(d: Seq<u8>) -> bool {
    forall|k: int| 0 <= k < d.len() ==> is_digit_byte(#[trigger] d[k])
}

/// The digit portion of a token: everything after an optional leading `+`.
pub open spec fn token_digits(t: Seq<u8>) -> Seq<u8> {
    if t.len() > 0 && t[0] == 43 {
        t.drop_first()
    } else {
        t
    }
}

/// The number a token denotes, if it is a well-formed unsigned number.
pub open spec fn token_value(t: Seq<u8>) -> Option<int> {
    let d = token_digits(t);
    if d.len() == 0 || !all_digits(d) {
        None
    } else {
        Some(digits_value(d))
    }
}

/// A token names a die: a number between 1 and 6.
pub open spec fn token_ok(t: Seq<u8>) -> bool {
    match token_value(t) {
        Some(v) => 1 <= v <= 6,
        None => false,
    }
}

/// The 0-based die indices a separator-split input denotes, or the first
/// offending token.
pub open spec fn spec_parse_indices(b: Seq<u8>) -> Result<Seq<usize>, Seq<u8>>
    decreases b.len(),
    via spec_parse_indices_decreases
{
    if b.len() == 0 {
        Ok(Seq::empty())
    } else if is_sep_byte(b[0]) {
        spec_parse_indices(b.drop_first())
    } else {
        let t = first_token(b);
        if token_ok(t) {
            match spec_parse_indices(b.skip(t.len() as int)) {
                Ok(rest) => match token_value(t) {
                    Some(v) => Ok(seq![((v - 1) as usize)] + rest),
                    None => Err(t),
                },
                Err(e) => Err(e),
            }
        } else {
            Err(t)
        }
    }
}

proof fn lemma_first_token_len(b: Seq<u8>)
    ensures
        first_token(b).len() <= b.len(),
    decreases b.len(),
{
    if b.len() > 0 && !is_sep_byte(b[0]) {
        lemma_first_token_len(b.drop_first());
    }
}

#[via_fn]
proof fn spec_parse_indices_decreases(b: Seq<u8>) {
    if b.len() > 0 && !is_sep_byte(b[0]) {
        lemma_first_token_len(b);
        assert(first_token(b).len() >= 1);
    }
}

/// The whole selection language over the raw input bytes.
pub open spec fn spec_parse_reroll(s: Seq<u8>) -> Result<Seq<usize>, Seq<u8>> {
    let t = trimmed_of(s);
    if t == seq![120u8] || t == seq![88u8] {
        Ok(Seq::empty())
    } else if t == seq![48u8] {
        Ok(seq![0usize, 1usize, 2usize, 3usize, 4usize, 5usize])
    } else {
        spec_parse_indices(t)
    }
}

/// A reroll selection that could not be read: the first offending token,
/// as UTF-8 bytes, folded to lower case as the selection language reads
/// its input case-insensitively.
#[derive(Debug, PartialEq, Eq)]
pub struct RerollParseError {
    pub token: Vec<u8>,
}

/// The Unicode lower-case folding of a byte string, read as UTF-8.
pub uninterp spec fn lower_bytes_of(s: Seq<u8>) -> Seq<u8>;

/// Relies on str::to_lowercase: the Unicode lowercase of a string depends
/// on its characters alone. The bytes are decoded first (any ill-formed
/// sequence replaced) and the folded string handed back as bytes.
#[verifier::external_body]
fn lowercase_bytes(bytes: &Vec<u8>) -> (r: Vec<u8>)
    ensures
        r@ == lower_bytes_of(bytes@),
{
    String::from_utf8_lossy(bytes).to_lowercase().into_bytes()
}

// ---------------------------------------------------------------------------
// Supporting lemmas
// ---------------------------------------------------------------------------
/// A separator-free run up to the first separator (or the end) is the
/// first token.
proof fn lemma_first_token_run(b: Seq<u8>, j: int)
    requires
        0 <= j <= b.len(),
        forall|k: int| 0 <= k < j ==> !is_sep_byte(#[trigger] b[k]),
        j < b.len() ==> is_sep_byte(b[j]),
    ensures
        first_token(b) == b.subrange(0, j),
    decreases j,
{
    if j == 0 {
        assert(b.subrange(0, 0) =~= Seq::<u8>::empty());
    } else {
        assert forall|k: int| 0 <= k < j - 1 implies !is_sep_byte(#[trigger] b.drop_first()[k]) by {
            assert(b.drop_first()[k] == b[k + 1]);
        }
        assert(j - 1 < b.drop_first().len() ==> is_sep_byte(b.drop_first()[j - 1]));
        lemma_first_token_run(b.drop_first(), j - 1);
        assert(seq![b[0]] + b.drop_first().subrange(0, j - 1) =~= b.subrange(0, j));
    }
}

proof fn lemma_digits_value_nonneg(d: Seq<u8>)
    requires
        all_digits(d),
    ensures
        digits_value(d) >= 0,
    decreases d.len(),
{
    if d.len() > 0 {
        assert forall|k: int| 0 <= k < d.drop_last().len() implies is_digit_byte(
            #[trigger] d.drop_last()[k],
        ) by {
            assert(d.drop_last()[k] == d[k]);
        }
        lemma_digits_value_nonneg(d.drop_last());
    }
}

// ---------------------------------------------------------------------------
// Exec byte classes
// ---------------------------------------------------------------------------
fn is_ws(b: u8) -> (r: bool)
    ensures
        r == is_ws_byte(b),
{
    b == 9 || b == 10 || b == 11 || b == 12 || b == 13 || b == 32
}

fn is_sep(b: u8) -> (r: bool)
    ensures
        r == is_sep_byte(b),
{
    b == 32 || b == 44
}

fn is_ws3(a: u8, b: u8, c: u8) -> (r: bool)
    ensures
        r == is_ws3_bytes(a, b, c),
{
    (a == 0xE1 && b == 0x9A && c == 0x80) || (a == 0xE2 && b == 0x80 && (0x80 <= c && c <= 0x8A
        || c == 0xA8 || c == 0xA9 || c == 0xAF)) || (a == 0xE2 && b == 0x81 && c == 0x9F) || (a
        == 0xE3 && b == 0x80 && c == 0x80)
}

/// The byte length of the whitespace character that `b[lo..hi]` starts
/// with, or zero.
fn ws_unit_at_start(b: &[u8], lo: usize, hi: usize) -> (k: usize)
    requires
        lo <= hi <= b@.len(),
    ensures
        k as int == ws_start_unit(b@.subrange(lo as int, hi as int)),
        k as int <= hi - lo,
{
    let len = hi - lo;
    let r: usize = if len >= 1 && is_ws(b[lo]) {
        1
    } else if len >= 2 && b[lo] == 0xC2 && (b[lo + 1] == 0x85 || b[lo + 1] == 0xA0) {
        2
    } else if len >= 3 && is_ws3(b[lo], b[lo + 1], b[lo + 2]) {
        3
    } else {
        0
    };
    proof {
        let s = b@.subrange(lo as int, hi as int);
        if s.len() >= 1 {
            assert(s[0] == b@[lo as int]);
        }
        if s.len() >= 2 {
            assert(s[1] == b@[lo as int + 1]);
        }
        if s.len() >= 3 {
            assert(s[2] == b@[lo as int + 2]);
        }
    }
    r
}

/// The byte length of the whitespace character that `b[lo..hi]` ends with,
/// or zero.
fn ws_unit_at_end(b: &[u8], lo: usize, hi: usize) -> (k: usize)
    requires
        lo <= hi <= b@.len(),
    ensures
        k as int == ws_end_unit(b@.subrange(lo as int, hi as int)),
        k as int <= hi - lo,
{
    let len = hi - lo;
    let r: usize = if len >= 1 && is_ws(b[hi - 1]) {
        1
    } else if len >= 2 && b[hi - 2] == 0xC2 && (b[hi - 1] == 0x85 || b[hi - 1] == 0xA0) {
        2
    } else if len >= 3 && is_ws3(b[hi - 3], b[hi - 2], b[hi - 1]) {
        3
    } else {
        0
    };
    proof {
        let s = b@.subrange(lo as int, hi as int);
        if s.len() >= 1 {
            assert(s[s.len() - 1] == b@[hi - 1]);
        }
        if s.len() >= 2 {
            assert(s[s.len() - 2] == b@[hi - 2]);
        }
        if s.len() >= 3 {
            assert(s[s.len() - 3] == b@[hi - 3]);
        }
    }
    r
}

// ---------------------------------------------------------------------------
// The parser
// ---------------------------------------------------------------------------
/// Reads a reroll selection: `Ok` with the selected 0-based die indices in
/// input order, or `Err` naming the first token that is not a die number
/// between 1 and 6, folded to lower case.
pub fn parse_reroll_input(input: &str) -> (r: Result<Vec<usize>, RerollParseError>)
    ensures
        (match spec_parse_reroll(input.spec_bytes()) {
            Ok(ixs) => r matches Ok(v) && v@ == ixs,
            Err(tok) => r matches Err(e) && e.token@ == lower_bytes_of(tok),
        }),
{
    let bytes = input.as_bytes();
    let n = bytes.len();
    let ghost sb = input.spec_bytes();

    // Trim whitespace characters from the start, one at a time.
    proof {
        assert(sb.subrange(0, n as int) =~= sb);
    }
    let mut lo: usize = 0;
    let mut k = ws_unit_at_start(bytes, lo, n);
    while k != 0
        invariant
            lo <= n,
            n == sb.len(),
            bytes@ == sb,
            k as int == ws_start_unit(sb.subrange(lo as int, n as int)),
            k as int <= n - lo,
            trim_start_bytes(sb) == trim_start_bytes(sb.subrange(lo as int, n as int)),
        decreases n - lo,
    {
        proof {
            assert(sb.subrange(lo as int, n as int).skip(k as int) =~= sb.subrange(
                lo as int + k as int,
                n as int,
            ));
        }
        lo = lo + k;
        k = ws_unit_at_start(bytes, lo, n);
    }
    proof {
        assert(trim_start_bytes(sb) == sb.subrange(lo as int, n as int));
    }

    // Then trim whitespace characters from the end.
    let mut hi: usize = n;
    let mut k2 = ws_unit_at_end(bytes, lo, hi);
    while k2 != 0
        invariant
            lo <= hi <= n,
            n == sb.len(),
            bytes@ == sb,
            k2 as int == ws_end_unit(sb.subrange(lo as int, hi as int)),
            k2 as int <= hi - lo,
            trim_end_bytes(sb.subrange(lo as int, n as int)) == trim_end_bytes(
                sb.subrange(lo as int, hi as int),
            ),
        decreases hi,
    {
        proof {
            let cur = sb.subrange(lo as int, hi as int);
            assert(cur.take(cur.len() - k2 as int) =~= sb.subrange(
                lo as int,
                hi as int - k2 as int,
            ));
        }
        hi = hi - k2;
        k2 = ws_unit_at_end(bytes, lo, hi);
    }
    proof {
        assert(trim_end_bytes(sb.subrange(lo as int, hi as int)) == sb.subrange(
            lo as int,
            hi as int,
        ));
        assert(trimmed_of(sb) == sb.subrange(lo as int, hi as int));
    }

    // Copy the trimmed bytes.
    let mut tb: Vec<u8> = Vec::new();
    let mut c: usize = lo;
    while c < hi
        invariant
            lo <= c <= hi <= n,
            n == sb.len(),
            bytes@ == sb,
            tb@ == sb.subrange(lo as int, c as int),
        decreases hi - c,
    {
        tb.push(bytes[c]);
        proof {
            assert(sb.subrange(lo as int, c as int).push(sb[c as int]) =~= sb.subrange(
                lo as int,
                c + 1,
            ));
        }
        c = c + 1;
    }
    proof {
        assert(tb@ == trimmed_of(sb));
    }

    // The keep-everything and reroll-everything directives.
    if tb.len() == 1 {
        let b0 = tb[0];
        if b0 == 120 || b0 == 88 {
            proof {
                if b0 == 120 {
                    assert(tb@ =~= seq![120u8]);
                } else {
                    assert(tb@ =~= seq![88u8]);
                }
            }
            return Ok(Vec::new());
        }
        if b0 == 48 {
            proof {
                assert(tb@ =~= seq![48u8]);
            }
            let mut all: Vec<usize> = Vec::new();
            all.push(0);
            all.push(1);
            all.push(2);
            all.push(3);
            all.push(4);
            all.push(5);
            proof {
                assert(all@ =~= seq![0usize, 1usize, 2usize, 3usize, 4usize, 5usize]);
            }
            return Ok(all);
        }
    }
    proof {
        assert(tb@ != seq![120u8] && tb@ != seq![88u8] && tb@ != seq![48u8]);
        assert(spec_parse_reroll(sb) == spec_parse_indices(tb@));
        assert(tb@.skip(0) =~= tb@);
    }

    // Token-by-token scan of the trimmed input.
    let m = tb.len();
    let mut i: usize = 0;
    let mut indices: Vec<usize> = Vec::new();
    while i < m
        invariant
            i <= m,
            m == tb@.len(),
            spec_parse_reroll(input.spec_bytes()) == spec_parse_indices(tb@),
            (spec_parse_indices(tb@.skip(i as int)) matches Ok(rest) ==> spec_parse_indices(tb@)
                == Ok::<Seq<usize>, Seq<u8>>(indices@ + rest)),
            (spec_parse_indices(tb@.skip(i as int)) matches Err(e) ==> spec_parse_indices(tb@)
                == Err::<Seq<usize>, Seq<u8>>(e)),
        decreases m - i,
    {
        if is_sep(tb[i]) {
            proof {
                assert(tb@.skip(i as int)[0] == tb@[i as int]);
                assert(tb@.skip(i as int).drop_first() =~= tb@.skip(i as int + 1));
            }
            i = i + 1;
        } else {
            // Find the end of the token.
            let mut j = i;
            while j < m && !is_sep(tb[j])
                invariant
                    i <= j <= m,
                    m == tb@.len(),
                    forall|k: int| i <= k < j ==> !is_sep_byte(#[trigger] tb@[k]),
                decreases m - j,
            {
                j = j + 1;
            }
            let ghost tok = tb@.subrange(i as int, j as int);
            proof {
                let suf = tb@.skip(i as int);
                assert forall|k: int| 0 <= k < j - i implies !is_sep_byte(#[trigger] suf[k]) by {
                    assert(suf[k] == tb@[k + i]);
                }
                assert(j - i < suf.len() ==> is_sep_byte(suf[j - i]));
                lemma_first_token_run(suf, j - i);
                assert(suf.subrange(0, j - i) =~= tok);
                assert(first_token(suf) == tok);
            }

            // Evaluate the token: an optional '+', then digits, value
            // clamped at 7 so that anything above 6 is seen as too large.
            let dstart = if tb[i] == 43 {
                i + 1
            } else {
                i
            };
            proof {
                assert(token_digits(tok) =~= tb@.subrange(dstart as int, j as int));
            }
            let mut all_dig = true;
            let mut val: u32 = 0;
            let mut k = dstart;
            while k < j
                invariant
                    dstart <= k <= j <= m,
                    m == tb@.len(),
                    val <= 7,
                    all_dig == all_digits(tb@.subrange(dstart as int, k as int)),
                    all_dig ==> val as int == (if digits_value(
                        tb@.subrange(dstart as int, k as int),
                    ) > 7 {
                        7int
                    } else {
                        digits_value(tb@.subrange(dstart as int, k as int))
                    }),
                decreases j - k,
            {
                let ghost pre = tb@.subrange(dstart as int, k as int);
                let ghost cur = tb@.subrange(dstart as int, k + 1);
                proof {
                    assert(cur.drop_last() =~= pre);
                    assert(cur.last() == tb@[k as int]);
                    assert forall|q: int| 0 <= q < pre.len() implies pre[q] == #[trigger] cur[q] by {}
                }
                let b = tb[k];
                if b < 48 || b > 57 {
                    all_dig = false;
                    proof {
                        assert(!is_digit_byte(cur[cur.len() - 1]));
                        assert(!all_digits(cur));
                    }
                } else {
                    if all_dig {
                        proof {
                            assert forall|q: int| 0 <= q < cur.len() implies is_digit_byte(
                                #[trigger] cur[q],
                            ) by {
                                if q < cur.len() - 1 {
                                    assert(cur[q] == pre[q]);
                                }
                            }
                            lemma_digits_value_nonneg(pre);
                        }
                        let d = (b - 48) as u32;
                        val = if val * 10 + d > 7 {
                            7
                        } else {
                            val * 10 + d
                        };
                    } else {
                        proof {
                            let q = choose|q: int| 0 <= q < pre.len() && !is_digit_byte(pre[q]);
                            assert(cur[q] == pre[q]);
                            assert(!all_digits(cur));
                        }
                    }
                }
                k = k + 1;
            }

            let token_is_ok = all_dig && dstart < j && 1 <= val && val <= 6;
            proof {
                assert(token_digits(tok).len() == j - dstart);
                if all_dig && dstart < j {
                    assert(all_digits(token_digits(tok)));
                    lemma_digits_value_nonneg(token_digits(tok));
                    assert(token_value(tok) == Some(digits_value(token_digits(tok))));
                    assert(token_is_ok == token_ok(tok));
                } else {
                    if dstart >= j {
                        assert(token_value(tok) is None);
                    } else {
                        assert(!all_digits(token_digits(tok)));
                        assert(token_value(tok) is None);
                    }
                    assert(!token_ok(tok));
                }
            }

            if token_is_ok {
                let ghost acc0 = indices@;
                indices.push((val - 1) as usize);
                proof {
                    let suf = tb@.skip(i as int);
                    assert(suf.skip(j - i) =~= tb@.skip(j as int));
                    let v = digits_value(token_digits(tok));
                    assert(val as int == v);
                    let ix = ((v - 1) as usize);
                    assert(indices@ =~= acc0 + seq![ix]);
                    match spec_parse_indices(tb@.skip(j as int)) {
                        Ok(rest) => {
                            assert(spec_parse_indices(suf) == Ok::<Seq<usize>, Seq<u8>>(
                                seq![ix] + rest,
                            ));
                            assert(acc0 + (seq![ix] + rest) =~= (acc0 + seq![ix]) + rest);
                        },
                        Err(e) => {
                            assert(spec_parse_indices(suf) == Err::<Seq<usize>, Seq<u8>>(e));
                        },
                    }
                }
                i = j;
            } else {
                // The first offending token: report it.
                let mut token: Vec<u8> = Vec::new();
                let mut k2 = i;
                while k2 < j
                    invariant
                        i <= k2 <= j <= m,
                        m == tb@.len(),
                        token@ == tb@.subrange(i as int, k2 as int),
                    decreases j - k2,
                {
                    token.push(tb[k2]);
                    proof {
                        assert(tb@.subrange(i as int, k2 as int).push(tb@[k2 as int])
                            =~= tb@.subrange(i as int, k2 + 1));
                    }
                    k2 = k2 + 1;
                }
                proof {
                    assert(spec_parse_indices(tb@.skip(i as int)) == Err::<Seq<usize>, Seq<u8>>(
                        tok,
                    ));
                }
                return Err(RerollParseError { token: lowercase_bytes(&token) });
            }
        }
    }
    proof {
        assert(tb@.skip(m as int) =~= Seq::<u8>::empty());
        assert(indices@ + Seq::<usize>::empty() =~= indices@);
    }
    Ok(indices)
}

} // verus!
