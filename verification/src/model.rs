use vstd::prelude::*;

use crate::error::ErrorCode;
use crate::value::SpecValue;

verus! {

// The wire grammar, as a mathematical function from a byte buffer and a
// cursor to either a value and the cursor after it, or an error kind and
// the offset at which the problem was detected.  The executable decoder is
// proved to return exactly what this model says.

/// Outcome of decoding one value starting at some offset.
pub enum SpecOutcome {
    Parsed(SpecValue, int),
    Failed(ErrorCode, int),
}

/// Outcome of decoding the items of a list up to its terminator.
pub enum SpecItemsOutcome {
    Parsed(Seq<SpecValue>, int),
    Failed(ErrorCode, int),
}

/// Outcome of decoding the key-value pairs of a dictionary up to its
/// terminator.
pub enum SpecPairsOutcome {
    Parsed(Map<Seq<u8>, SpecValue>, int),
    Failed(ErrorCode, int),
}

pub const BYTE_I: u8 = 105;

pub const BYTE_L: u8 = 108;

pub const BYTE_D: u8 = 100;

pub const BYTE_E: u8 = 101;

pub const BYTE_COLON: u8 = 58;

pub const BYTE_PLUS: u8 = 43;

pub const BYTE_MINUS: u8 = 45;

pub open spec fn is_digit(b: u8) -> bool {
    48 <= b && b <= 57
}

pub open spec fn all_digits(s: Seq<u8>) -> bool {
    forall|i: int| 0 <= i < s.len() ==> is_digit(#[trigger] s[i])
}

/// The number denoted by a sequence of ASCII digits, most significant first.
pub open spec fn digits_val(s: Seq<u8>) -> int
    decreases s,
{
    if s.len() == 0 {
        0
    } else {
        digits_val(s.subrange(0, s.len() - 1)) * 10 + (s.last() - 48)
    }
}

/// Shape of an unsigned decimal literal as the native unsigned parser
/// accepts it: an optional leading plus sign, then at least one digit.
pub open spec fn unsigned_literal_ok(s: Seq<u8>) -> bool {
    if s.len() == 0 {
        false
    } else if s[0] == BYTE_PLUS {
        s.len() >= 2 && all_digits(s.subrange(1, s.len() as int))
    } else {
        all_digits(s)
    }
}

pub open spec fn unsigned_literal_val(s: Seq<u8>) -> int {
    if s.len() > 0 && s[0] == BYTE_PLUS {
        digits_val(s.subrange(1, s.len() as int))
    } else {
        digits_val(s)
    }
}

/// Shape of a signed decimal literal as the native signed parser accepts
/// it: an optional leading plus or minus sign, then at least one digit.
pub open spec fn signed_literal_ok(s: Seq<u8>) -> bool {
    if s.len() == 0 {
        false
    } else if s[0] == BYTE_PLUS || s[0] == BYTE_MINUS {
        s.len() >= 2 && all_digits(s.subrange(1, s.len() as int))
    } else {
        all_digits(s)
    }
}

pub open spec fn signed_literal_val(s: Seq<u8>) -> int {
    if s.len() > 0 && s[0] == BYTE_MINUS {
        -digits_val(s.subrange(1, s.len() as int))
    } else if s.len() > 0 && s[0] == BYTE_PLUS {
        digits_val(s.subrange(1, s.len() as int))
    } else {
        digits_val(s)
    }
}

/// A signed literal that also fits in a 64-bit signed integer.
pub open spec fn i64_literal_ok(s: Seq<u8>) -> bool {
    signed_literal_ok(s) && i64::MIN <= signed_literal_val(s) <= i64::MAX
}

/// An unsigned literal that also fits in the native word used for lengths.
pub open spec fn len_literal_ok(s: Seq<u8>) -> bool {
    unsigned_literal_ok(s) && unsigned_literal_val(s) <= usize::MAX
}

pub proof fn lemma_digits_val_nonneg(s: Seq<u8>)
    requires
        all_digits(s),
    ensures
        digits_val(s) >= 0,
    decreases s,
{
    if s.len() > 0 {
        let pre = s.subrange(0, s.len() - 1);
        assert(all_digits(pre));
        lemma_digits_val_nonneg(pre);
    }
}

/// Extending a digit string by one digit multiplies its value by ten and
/// adds the digit.
pub proof fn lemma_digits_val_step(s: Seq<u8>, k: int)
    requires
        0 <= k < s.len(),
    ensures
        digits_val(s.subrange(0, k + 1)) == digits_val(s.subrange(0, k)) * 10 + (s[k] - 48),
{
    let ext = s.subrange(0, k + 1);
    assert(ext.subrange(0, k) =~= s.subrange(0, k));
    assert(ext.last() == s[k]);
}

/// The value of a digit string is at least the value of any of its
/// prefixes.
pub proof fn lemma_digits_val_prefix_le(s: Seq<u8>, k: int)
    requires
        all_digits(s),
        0 <= k <= s.len(),
    ensures
        digits_val(s.subrange(0, k)) <= digits_val(s),
    decreases s.len() - k,
{
    if k == s.len() {
        assert(s.subrange(0, k) =~= s);
    } else {
        let pre = s.subrange(0, k);
        assert(all_digits(pre));
        lemma_digits_val_nonneg(pre);
        lemma_digits_val_step(s, k);
        assert(digits_val(s.subrange(0, k + 1)) >= digits_val(pre));
        lemma_digits_val_prefix_le(s, k + 1);
    }
}

/// Offset of the first occurrence of `b` at or after `pos`, if any.
pub open spec fn sp_find(s: Seq<u8>, pos: int, b: u8) -> Option<int>
    decreases s.len() - pos,
{
    if pos < 0 || pos >= s.len() {
        None
    } else if s[pos] == b {
        Some(pos)
    } else {
        sp_find(s, pos + 1, b)
    }
}

pub proof fn lemma_sp_find_found(s: Seq<u8>, pos: int, b: u8, i: int)
    requires
        0 <= pos <= i < s.len(),
        s[i] == b,
        forall|j: int| pos <= j < i ==> s[j] != b,
    ensures
        sp_find(s, pos, b) == Some(i),
    decreases i - pos,
{
    if pos < i {
        lemma_sp_find_found(s, pos + 1, b, i);
    }
}

pub proof fn lemma_sp_find_none(s: Seq<u8>, pos: int, b: u8)
    requires
        0 <= pos,
        forall|j: int| pos <= j < s.len() ==> s[j] != b,
    ensures
        sp_find(s, pos, b) is None,
    decreases s.len() - pos,
{
    if pos < s.len() {
        lemma_sp_find_none(s, pos + 1, b);
    }
}

pub proof fn lemma_sp_find_bounds(s: Seq<u8>, pos: int, b: u8)
    ensures
        sp_find(s, pos, b) matches Some(i) ==> pos <= i < s.len() && s[i] == b,
    decreases s.len() - pos,
{
    if 0 <= pos < s.len() && s[pos] != b {
        lemma_sp_find_bounds(s, pos + 1, b);
    }
}

pub proof fn lemma_unsigned_literal_val_nonneg(lit: Seq<u8>)
    requires
        unsigned_literal_ok(lit),
    ensures
        unsigned_literal_val(lit) >= 0,
{
    if lit[0] == BYTE_PLUS {
        let d = lit.subrange(1, lit.len() as int);
        lemma_digits_val_nonneg(d);
    } else {
        lemma_digits_val_nonneg(lit);
    }
}

/// Decoding an integer: `pos` points at the leading `i`.  The literal runs
/// to the first `e`; a missing terminator is reported at the literal's
/// start, a literal the native signed 64-bit parser rejects is reported
/// just past the terminator.
pub open spec fn sp_parse_int(s: Seq<u8>, pos: int) -> SpecOutcome {
    let start = pos + 1;
    match sp_find(s, start, BYTE_E) {
        Option::None => SpecOutcome::Failed(ErrorCode::IntegerParseError, start),
        Option::Some(epos) => {
            let lit = s.subrange(start, epos);
            if i64_literal_ok(lit) {
                SpecOutcome::Parsed(SpecValue::Integer(signed_literal_val(lit)), epos + 1)
            } else {
                SpecOutcome::Failed(ErrorCode::IntegerParseError, epos + 1)
            }
        },
    }
}

/// Decoding a byte string: `pos` points at the first byte of the length
/// prefix.  A missing separator or a bad length is reported at the prefix's
/// start; a payload that runs past the end of the buffer is reported at the
/// payload's start.
pub open spec fn sp_parse_str(s: Seq<u8>, pos: int) -> SpecOutcome {
    match sp_find(s, pos, BYTE_COLON) {
        Option::None => SpecOutcome::Failed(ErrorCode::StringParseError, pos),
        Option::Some(cpos) => {
            let lit = s.subrange(pos, cpos);
            if !len_literal_ok(lit) {
                SpecOutcome::Failed(ErrorCode::StringParseError, pos)
            } else {
                let n = unsigned_literal_val(lit);
                if cpos + 1 + n > s.len() {
                    SpecOutcome::Failed(ErrorCode::UnexpectedEnd, cpos + 1)
                } else {
                    SpecOutcome::Parsed(
                        SpecValue::ByteString(s.subrange(cpos + 1, cpos + 1 + n)),
                        cpos + 1 + n,
                    )
                }
            }
        },
    }
}

/// Decoding one value at `pos` with `depth` container levels still allowed
/// to open.
pub open spec fn sp_parse(s: Seq<u8>, pos: int, depth: nat) -> SpecOutcome
    decreases depth, s.len() - pos, 0int,
{
    if pos < 0 || pos >= s.len() {
        SpecOutcome::Failed(ErrorCode::UnexpectedEnd, pos)
    } else if s[pos] == BYTE_I {
        sp_parse_int(s, pos)
    } else if s[pos] == BYTE_L {
        if depth == 0 {
            SpecOutcome::Failed(ErrorCode::DepthLimitExceeded, pos)
        } else {
            match sp_parse_items(s, pos + 1, (depth - 1) as nat) {
                SpecItemsOutcome::Parsed(items, end) => SpecOutcome::Parsed(
                    SpecValue::List(items),
                    end,
                ),
                SpecItemsOutcome::Failed(code, at) => SpecOutcome::Failed(code, at),
            }
        }
    } else if s[pos] == BYTE_D {
        if depth == 0 {
            SpecOutcome::Failed(ErrorCode::DepthLimitExceeded, pos)
        } else {
            match sp_parse_pairs(s, pos + 1, (depth - 1) as nat) {
                SpecPairsOutcome::Parsed(entries, end) => SpecOutcome::Parsed(
                    SpecValue::Dict(entries),
                    end,
                ),
                SpecPairsOutcome::Failed(code, at) => SpecOutcome::Failed(code, at),
            }
        }
    } else if is_digit(s[pos]) {
        sp_parse_str(s, pos)
    } else {
        SpecOutcome::Failed(ErrorCode::UnexpectedCharacter, pos)
    }
}

/// Decoding the items of a list from `pos` up to and including the
/// terminating `e`.  The second branch on `end` can never be taken, because
/// decoding a value always advances the cursor (`lemma_sp_parse_advances`);
/// it only bounds the recursion.
pub open spec fn sp_parse_items(s: Seq<u8>, pos: int, depth: nat) -> SpecItemsOutcome
    decreases depth, s.len() - pos, 1int,
{
    if pos < 0 || pos >= s.len() {
        SpecItemsOutcome::Failed(ErrorCode::UnexpectedEnd, pos)
    } else if s[pos] == BYTE_E {
        SpecItemsOutcome::Parsed(Seq::empty(), pos + 1)
    } else {
        match sp_parse(s, pos, depth) {
            SpecOutcome::Failed(code, at) => SpecItemsOutcome::Failed(code, at),
            SpecOutcome::Parsed(v, end) => {
                if !(pos < end <= s.len()) {
                    SpecItemsOutcome::Failed(ErrorCode::InvalidList, pos)
                } else {
                    match sp_parse_items(s, end, depth) {
                        SpecItemsOutcome::Failed(code, at) => SpecItemsOutcome::Failed(code, at),
                        SpecItemsOutcome::Parsed(rest, after) => SpecItemsOutcome::Parsed(
                            seq![v] + rest,
                            after,
                        ),
                    }
                }
            },
        }
    }
}

/// Decoding the pairs of a dictionary from `pos` up to and including the
/// terminating `e`.  A key must decode to a byte string, anything else is
/// an invalid dictionary; a failure while decoding the value under a key is
/// collapsed into `InvalidDictionary` at the offset where that value
/// begins, losing the inner failure's own kind and message.  A pair decoded later overwrites an earlier pair
/// with the same key.  The guards on `kend` and `vend` can never be taken
/// (`lemma_sp_parse_advances`); they only bound the recursion.
pub open spec fn sp_parse_pairs(s: Seq<u8>, pos: int, depth: nat) -> SpecPairsOutcome
    decreases depth, s.len() - pos, 1int,
{
    if pos < 0 || pos >= s.len() {
        SpecPairsOutcome::Failed(ErrorCode::UnexpectedEnd, pos)
    } else if s[pos] == BYTE_E {
        SpecPairsOutcome::Parsed(Map::empty(), pos + 1)
    } else {
        match sp_parse(s, pos, depth) {
            SpecOutcome::Failed(code, at) => SpecPairsOutcome::Failed(code, at),
            SpecOutcome::Parsed(key, kend) => {
                if !(key is ByteString) {
                    SpecPairsOutcome::Failed(ErrorCode::InvalidDictionary, pos)
                } else if !(pos < kend <= s.len()) {
                    SpecPairsOutcome::Failed(ErrorCode::InvalidDictionary, pos)
                } else {
                    match sp_parse(s, kend, depth) {
                        SpecOutcome::Failed(_, _) => SpecPairsOutcome::Failed(
                            ErrorCode::InvalidDictionary,
                            kend,
                        ),
                        SpecOutcome::Parsed(value, vend) => {
                            if !(kend < vend <= s.len()) {
                                SpecPairsOutcome::Failed(ErrorCode::InvalidDictionary, kend)
                            } else {
                                match sp_parse_pairs(s, vend, depth) {
                                    SpecPairsOutcome::Failed(code, at) => SpecPairsOutcome::Failed(
                                        code,
                                        at,
                                    ),
                                    SpecPairsOutcome::Parsed(rest, after) => {
                                        let k = key->ByteString_0;
                                        if rest.dom().contains(k) {
                                            SpecPairsOutcome::Parsed(rest, after)
                                        } else {
                                            SpecPairsOutcome::Parsed(rest.insert(k, value), after)
                                        }
                                    },
                                }
                            }
                        },
                    }
                }
            },
        }
    }
}

/// Decoding a value always consumes at least one byte and never runs past
/// the end of the buffer.  In particular the bounds guards inside
/// `sp_parse_items` and `sp_parse_pairs` can never fail.
pub proof fn lemma_sp_parse_advances(s: Seq<u8>, pos: int, depth: nat)
    ensures
        sp_parse(s, pos, depth) matches SpecOutcome::Parsed(_, end) ==> pos < end <= s.len(),
    decreases depth, s.len() - pos, 0int,
{
    if pos < 0 || pos >= s.len() {
    } else if s[pos] == BYTE_I {
        lemma_sp_find_bounds(s, pos + 1, BYTE_E);
    } else if s[pos] == BYTE_L {
        if depth > 0 {
            lemma_sp_parse_items_advances(s, pos + 1, (depth - 1) as nat);
        }
    } else if s[pos] == BYTE_D {
        if depth > 0 {
            lemma_sp_parse_pairs_advances(s, pos + 1, (depth - 1) as nat);
        }
    } else if is_digit(s[pos]) {
        lemma_sp_find_bounds(s, pos, BYTE_COLON);
        match sp_find(s, pos, BYTE_COLON) {
            Option::Some(cpos) => {
                let lit = s.subrange(pos, cpos);
                if len_literal_ok(lit) {
                    lemma_unsigned_literal_val_nonneg(lit);
                }
            },
            Option::None => {},
        }
    }
}

/// Companion of `lemma_sp_parse_advances` for list items.
pub proof fn lemma_sp_parse_items_advances(s: Seq<u8>, pos: int, depth: nat)
    ensures
        sp_parse_items(s, pos, depth) matches SpecItemsOutcome::Parsed(_, after) ==> pos < after
            <= s.len(),
    decreases depth, s.len() - pos, 1int,
{
    if 0 <= pos < s.len() && s[pos] != BYTE_E {
        match sp_parse(s, pos, depth) {
            SpecOutcome::Parsed(v, end) => {
                if pos < end <= s.len() {
                    lemma_sp_parse_items_advances(s, end, depth);
                }
            },
            SpecOutcome::Failed(_, _) => {},
        }
    }
}

/// Companion of `lemma_sp_parse_advances` for dictionary pairs.
pub proof fn lemma_sp_parse_pairs_advances(s: Seq<u8>, pos: int, depth: nat)
    ensures
        sp_parse_pairs(s, pos, depth) matches SpecPairsOutcome::Parsed(_, after) ==> pos < after
            <= s.len(),
    decreases depth, s.len() - pos, 1int,
{
    if 0 <= pos < s.len() && s[pos] != BYTE_E {
        match sp_parse(s, pos, depth) {
            SpecOutcome::Parsed(key, kend) => {
                if key is ByteString && pos < kend <= s.len() {
                    match sp_parse(s, kend, depth) {
                        SpecOutcome::Parsed(value, vend) => {
                            if kend < vend <= s.len() {
                                lemma_sp_parse_pairs_advances(s, vend, depth);
                            }
                        },
                        SpecOutcome::Failed(_, _) => {},
                    }
                }
            },
            SpecOutcome::Failed(_, _) => {},
        }
    }
}

/// Decoding is deterministic: the outcome is a function of the buffer, the
/// starting offset and the nesting bound alone, so two decodes of one
/// buffer agree on the value tree, or on the error's kind and offset.
pub proof fn lemma_decode_deterministic(
    s: Seq<u8>,
    pos: int,
    depth: nat,
    r1: SpecOutcome,
    r2: SpecOutcome,
)
    requires
        r1 == sp_parse(s, pos, depth),
        r2 == sp_parse(s, pos, depth),
    ensures
        r1 == r2,
{
}

/// Every syntactically valid encoded integer whose literal the native
/// signed 64-bit parser accepts decodes to exactly the literal's
/// mathematical value, consuming the whole buffer.
pub proof fn lemma_valid_integer_decodes(lit: Seq<u8>, depth: nat)
    requires
        i64_literal_ok(lit),
    ensures
        ({
            let s = seq![BYTE_I] + lit + seq![BYTE_E];
            sp_parse(s, 0, depth) == SpecOutcome::Parsed(
                SpecValue::Integer(signed_literal_val(lit)),
                s.len() as int,
            )
        }),
{
    let s = seq![BYTE_I] + lit + seq![BYTE_E];
    let epos = 1 + lit.len() as int;
    assert(s[0] == BYTE_I);
    assert(s[epos] == BYTE_E);
    assert forall|j: int| 1 <= j < epos implies s[j] != BYTE_E by {
        assert(s[j] == lit[j - 1]);
        if lit[0] == BYTE_PLUS || lit[0] == BYTE_MINUS {
            if j > 1 {
                assert(is_digit(lit.subrange(1, lit.len() as int)[j - 2]));
            }
        } else {
            assert(is_digit(lit[j - 1]));
        }
    }
    lemma_sp_find_found(s, 1, BYTE_E, epos);
    assert(s.subrange(1, epos) =~= lit);
}

/// `InvalidList` is reserved: no outcome of decoding carries it.  A list
/// propagates an inner failure unchanged, while a dictionary collapses an
/// inner failure into `InvalidDictionary`; this asymmetry is deliberate.
pub proof fn lemma_invalid_list_unused(s: Seq<u8>, pos: int, depth: nat)
    ensures
        sp_parse(s, pos, depth) matches SpecOutcome::Failed(code, _) ==> code
            != ErrorCode::InvalidList,
    decreases depth, s.len() - pos, 0int,
{
    if 0 <= pos < s.len() {
        if s[pos] == BYTE_L {
            if depth > 0 {
                lemma_items_never_invalid_list(s, pos + 1, (depth - 1) as nat);
            }
        } else if s[pos] == BYTE_D {
            if depth > 0 {
                lemma_pairs_never_invalid_list(s, pos + 1, (depth - 1) as nat);
            }
        }
    }
}

/// Companion of `lemma_invalid_list_unused` for list items.
pub proof fn lemma_items_never_invalid_list(s: Seq<u8>, pos: int, depth: nat)
    ensures
        sp_parse_items(s, pos, depth) matches SpecItemsOutcome::Failed(code, _) ==> code
            != ErrorCode::InvalidList,
    decreases depth, s.len() - pos, 1int,
{
    if 0 <= pos < s.len() && s[pos] != BYTE_E {
        lemma_invalid_list_unused(s, pos, depth);
        match sp_parse(s, pos, depth) {
            SpecOutcome::Parsed(v, end) => {
                lemma_sp_parse_advances(s, pos, depth);
                assert(pos < end <= s.len());
                lemma_items_never_invalid_list(s, end, depth);
            },
            SpecOutcome::Failed(_, _) => {},
        }
    }
}

/// Companion of `lemma_invalid_list_unused` for dictionary pairs.
pub proof fn lemma_pairs_never_invalid_list(s: Seq<u8>, pos: int, depth: nat)
    ensures
        sp_parse_pairs(s, pos, depth) matches SpecPairsOutcome::Failed(code, _) ==> code
            != ErrorCode::InvalidList,
    decreases depth, s.len() - pos, 1int,
{
    if 0 <= pos < s.len() && s[pos] != BYTE_E {
        lemma_invalid_list_unused(s, pos, depth);
        match sp_parse(s, pos, depth) {
            SpecOutcome::Parsed(key, kend) => {
                lemma_sp_parse_advances(s, pos, depth);
                if key is ByteString {
                    match sp_parse(s, kend, depth) {
                        SpecOutcome::Parsed(value, vend) => {
                            lemma_sp_parse_advances(s, kend, depth);
                            lemma_pairs_never_invalid_list(s, vend, depth);
                        },
                        SpecOutcome::Failed(_, _) => {},
                    }
                }
            },
            SpecOutcome::Failed(_, _) => {},
        }
    }
}

} // verus!
