use vstd::prelude::*;
use vstd::slice::slice_subrange;
use vstd::slice::slice_to_vec;

use crate::error::Error;
use crate::error::ErrorCode;
use crate::model::len_literal_ok;
use crate::model::i64_literal_ok;
use crate::model::all_digits;
use crate::model::digits_val;
use crate::model::unsigned_literal_ok;
use crate::model::unsigned_literal_val;
use crate::model::signed_literal_ok;
use crate::model::signed_literal_val;
use crate::model::sp_find;
use crate::model::sp_parse;
use crate::model::sp_parse_int;
use crate::model::sp_parse_str;
use crate::model::sp_parse_items;
use crate::model::sp_parse_pairs;
use crate::model::SpecOutcome;
use crate::model::SpecItemsOutcome;
use crate::model::SpecPairsOutcome;
use crate::model::lemma_sp_find_found;
use crate::model::lemma_sp_find_none;
use crate::model::lemma_digits_val_step;
use crate::model::lemma_digits_val_prefix_le;
use crate::model::BYTE_I;
use crate::model::BYTE_L;
use crate::model::BYTE_D;
use crate::model::BYTE_E;
use crate::model::BYTE_COLON;
use crate::model::BYTE_PLUS;
use crate::model::BYTE_MINUS;
use crate::value::BencodeValue;
use crate::value::view_of;
use crate::value::views_of_seq;
use crate::value::dict_map_of;
use crate::value::unique_keys;
use crate::value::wf_value;
use crate::value::lemma_views_of_seq_push;
use crate::value::lemma_dict_map_of_push;
use crate::value::lemma_dict_map_of_update;

verus! {

/// How many container levels a decoder opens before it gives up, unless a
/// different bound is chosen at construction.
pub const DEFAULT_MAX_DEPTH: usize = 64;

/// One decode session: an owned byte buffer, a cursor, and the nesting
/// bound.  Construct it, call `parse` once.
pub struct Parser {
    data: Vec<u8>,
    position: usize,
    max_depth: usize,
}

/// Offset of the first occurrence of `b` in `data` at or after `from`.
fn find_byte(data: &Vec<u8>, from: usize, b: u8) -> (r: Option<usize>)
    requires
        from <= data@.len(),
    ensures
        match r {
            Some(i) => from <= i < data@.len() && data@[i as int] == b && sp_find(
                data@,
                from as int,
                b,
            ) == Some(i as int),
            None => sp_find(data@, from as int, b) is None,
        },
{
    let mut i = from;
    while i < data.len()
        invariant
            from <= i <= data@.len(),
            forall|j: int| from <= j < i ==> data@[j] != b,
        decreases data@.len() - i,
    {
        if data[i] == b {
            proof {
                lemma_sp_find_found(data@, from as int, b, i as int);
            }
            return Some(i);
        }
        i += 1;
    }
    proof {
        lemma_sp_find_none(data@, from as int, b);
    }
    None
}

/// Decodes `data[start..end]` as an unsigned decimal literal, exactly as
/// the native unsigned parser would: `None` exactly when the literal is
/// malformed or its value does not fit the native length word.
#[verifier::loop_isolation(false)]
fn parse_usize_literal(data: &Vec<u8>, start: usize, end: usize) -> (r: Option<usize>)
    requires
        start <= end <= data@.len(),
    ensures
        ({
            let lit = data@.subrange(start as int, end as int);
            match r {
                Some(n) => len_literal_ok(lit) && n as int == unsigned_literal_val(lit),
                None => !len_literal_ok(lit),
            }
        }),
{
    let ghost lit = data@.subrange(start as int, end as int);
    let mut ds = start;
    if start < end && data[start] == BYTE_PLUS {
        ds = start + 1;
    }
    let ghost dlit = data@.subrange(ds as int, end as int);
    proof {
        if lit.len() > 0 && lit[0] == BYTE_PLUS {
            assert(lit.subrange(1, lit.len() as int) =~= dlit);
        } else {
            assert(lit =~= dlit);
        }
        assert(unsigned_literal_ok(lit) <==> (dlit.len() > 0 && all_digits(dlit)));
        assert(unsigned_literal_ok(lit) ==> unsigned_literal_val(lit) == digits_val(dlit));
    }
    if ds == end {
        return None;
    }
    let mut acc: usize = 0;
    let mut i = ds;
    while i < end
        invariant
            ds <= i <= end <= data@.len(),
            dlit == data@.subrange(ds as int, end as int),
            all_digits(dlit.subrange(0, i - ds)),
            acc as int == digits_val(dlit.subrange(0, i - ds)),
        decreases end - i,
    {
        let b = data[i];
        proof {
            assert(dlit[i - ds] == data@[i as int]);
        }
        if b < 48 || b > 57 {
            proof {
                assert(!all_digits(dlit));
            }
            return None;
        }
        let d = (b - 48) as usize;
        proof {
            lemma_digits_val_step(dlit, i - ds);
            assert(dlit.subrange(0, i - ds + 1).subrange(0, i - ds) =~= dlit.subrange(0, i - ds));
        }
        if acc > (usize::MAX - d) / 10 {
            proof {
                let q = (usize::MAX - d) / 10;
                assert(q * 10 + (usize::MAX - d) % 10 == usize::MAX - d);
                assert(acc >= q + 1);
                assert(acc * 10 >= (q + 1) * 10) by (nonlinear_arith)
                    requires
                        acc >= q + 1,
                        q >= 0,
                ;
                assert(acc * 10 + d > usize::MAX);
                assert(digits_val(dlit.subrange(0, i - ds + 1)) > usize::MAX);
                if all_digits(dlit) {
                    lemma_digits_val_prefix_le(dlit, i - ds + 1);
                    assert(unsigned_literal_val(lit) > usize::MAX);
                }
            }
            return None;
        }
        proof {
            let q = (usize::MAX - d) / 10;
            assert(q * 10 <= usize::MAX - d);
            assert(acc * 10 <= q * 10) by (nonlinear_arith)
                requires
                    acc <= q,
                    0 <= acc,
            ;
        }
        acc = acc * 10 + d;
        i += 1;
    }
    proof {
        assert(dlit.subrange(0, end - ds) =~= dlit);
        assert(unsigned_literal_ok(lit));
        assert(unsigned_literal_val(lit) == acc as int);
    }
    Some(acc)
}

/// Decodes `data[start..end]` as a signed decimal literal, exactly as the
/// native signed 64-bit parser would: `None` exactly when the literal is
/// malformed or its value is outside the signed 64-bit range.
#[verifier::loop_isolation(false)]
fn parse_i64_literal(data: &Vec<u8>, start: usize, end: usize) -> (r: Option<i64>)
    requires
        start <= end <= data@.len(),
    ensures
        ({
            let lit = data@.subrange(start as int, end as int);
            match r {
                Some(x) => i64_literal_ok(lit) && x as int == signed_literal_val(lit),
                None => !i64_literal_ok(lit),
            }
        }),
{
    let ghost lit = data@.subrange(start as int, end as int);
    let mut ds = start;
    let mut neg = false;
    if start < end && data[start] == BYTE_PLUS {
        ds = start + 1;
    }
    if start < end && data[start] == BYTE_MINUS {
        ds = start + 1;
        neg = true;
    }
    let ghost dlit = data@.subrange(ds as int, end as int);
    proof {
        if lit.len() > 0 && (lit[0] == BYTE_PLUS || lit[0] == BYTE_MINUS) {
            assert(lit.subrange(1, lit.len() as int) =~= dlit);
        } else {
            assert(lit =~= dlit);
        }
        assert(signed_literal_ok(lit) <==> (dlit.len() > 0 && all_digits(dlit)));
        assert(signed_literal_ok(lit) ==> signed_literal_val(lit) == if neg {
            -digits_val(dlit)
        } else {
            digits_val(dlit)
        });
    }
    if ds == end {
        return None;
    }
    let limit: u64 = if neg {
        9223372036854775808u64
    } else {
        9223372036854775807u64
    };
    let mut acc: u64 = 0;
    let mut i = ds;
    while i < end
        invariant
            ds <= i <= end <= data@.len(),
            dlit == data@.subrange(ds as int, end as int),
            all_digits(dlit.subrange(0, i - ds)),
            acc as int == digits_val(dlit.subrange(0, i - ds)),
            acc <= limit,
            limit == if neg {
                9223372036854775808u64
            } else {
                9223372036854775807u64
            },
        decreases end - i,
    {
        let b = data[i];
        proof {
            assert(dlit[i - ds] == data@[i as int]);
        }
        if b < 48 || b > 57 {
            proof {
                assert(!all_digits(dlit));
            }
            return None;
        }
        let d = (b - 48) as u64;
        proof {
            lemma_digits_val_step(dlit, i - ds);
            assert(dlit.subrange(0, i - ds + 1).subrange(0, i - ds) =~= dlit.subrange(0, i - ds));
        }
        if acc > (limit - d) / 10 {
            proof {
                let q = (limit - d) / 10;
                assert(q * 10 + (limit - d) % 10 == limit - d);
                assert(acc >= q + 1);
                assert(acc * 10 >= (q + 1) * 10) by (nonlinear_arith)
                    requires
                        acc >= q + 1,
                        q >= 0,
                ;
                assert(acc * 10 + d > limit);
                assert(digits_val(dlit.subrange(0, i - ds + 1)) > limit);
                if all_digits(dlit) {
                    lemma_digits_val_prefix_le(dlit, i - ds + 1);
                    assert(digits_val(dlit) > limit);
                }
            }
            return None;
        }
        proof {
            let q = (limit - d) / 10;
            assert(q * 10 <= limit - d);
            assert(acc * 10 <= q * 10) by (nonlinear_arith)
                requires
                    acc <= q,
                    0 <= acc,
            ;
        }
        acc = acc * 10 + d;
        i += 1;
    }
    proof {
        assert(dlit.subrange(0, end - ds) =~= dlit);
        assert(signed_literal_ok(lit));
    }
    if neg {
        if acc == 9223372036854775808u64 {
            Some(i64::MIN)
        } else {
            Some(-(acc as i64))
        }
    } else {
        Some(acc as i64)
    }
}

/// Byte-for-byte equality of two buffers.
#[verifier::loop_isolation(false)]
fn bytes_eq(a: &Vec<u8>, b: &Vec<u8>) -> (r: bool)
    ensures
        r <==> a@ == b@,
{
    if a.len() != b.len() {
        return false;
    }
    let mut i: usize = 0;
    while i < a.len()
        invariant
            0 <= i <= a@.len(),
            a@.len() == b@.len(),
            forall|j: int| 0 <= j < i ==> a@[j] == b@[j],
        decreases a@.len() - i,
    {
        if a[i] != b[i] {
            return false;
        }
        i += 1;
    }
    proof {
        assert(a@ =~= b@);
    }
    true
}

/// Binds `key` to `value` in a key-unique pair list: overwrites the value
/// in place if the key is already bound, appends the pair otherwise.
#[verifier::loop_isolation(false)]
fn dict_insert(pairs: &mut Vec<(Vec<u8>, BencodeValue)>, key: Vec<u8>, value: BencodeValue)
    requires
        unique_keys(old(pairs)@),
        forall|i: int| 0 <= i < old(pairs)@.len() ==> wf_value((#[trigger] old(pairs)@[i]).1),
        wf_value(value),
    ensures
        unique_keys(final(pairs)@),
        forall|i: int| 0 <= i < final(pairs)@.len() ==> wf_value((#[trigger] final(pairs)@[i]).1),
        dict_map_of(final(pairs)@) == dict_map_of(old(pairs)@).insert(key@, view_of(value)),
{
    let mut i: usize = 0;
    while i < pairs.len()
        invariant
            0 <= i <= pairs@.len(),
            pairs@ == old(pairs)@,
            forall|j: int| 0 <= j < i ==> (#[trigger] pairs@[j]).0@ != key@,
        decreases pairs@.len() - i,
    {
        if bytes_eq(&pairs[i].0, &key) {
            proof {
                lemma_dict_map_of_update(pairs@, i as int, key, value);
            }
            pairs.remove(i);
            pairs.insert(i, (key, value));
            proof {
                assert(pairs@ =~= old(pairs)@.update(i as int, (key, value)));
            }
            return ;
        }
        i += 1;
    }
    proof {
        lemma_dict_map_of_push(pairs@, key, value);
    }
    pairs.push((key, value));
}

impl Parser {
    #[verifier::type_invariant]
    spec fn cursor_in_bounds(&self) -> bool {
        self.position <= self.data@.len()
    }

    /// The bytes this session decodes.
    pub closed spec fn spec_data(&self) -> Seq<u8> {
        self.data@
    }

    /// The cursor: the offset the next decode starts from.
    pub closed spec fn spec_position(&self) -> int {
        self.position as int
    }

    /// The nesting bound this session was built with.
    pub closed spec fn spec_max_depth(&self) -> nat {
        self.max_depth as nat
    }

    /// A session over `data` with the default nesting bound.
    pub fn new(data: Vec<u8>) -> (p: Parser)
        ensures
            p.spec_data() == data@,
            p.spec_position() == 0,
            p.spec_max_depth() == DEFAULT_MAX_DEPTH as nat,
    {
        Parser { data, position: 0, max_depth: DEFAULT_MAX_DEPTH }
    }

    /// A session over `data` that refuses to open more than `max_depth`
    /// container levels.
    pub fn with_max_depth(data: Vec<u8>, max_depth: usize) -> (p: Parser)
        ensures
            p.spec_data() == data@,
            p.spec_position() == 0,
            p.spec_max_depth() == max_depth as nat,
    {
        Parser { data, position: 0, max_depth }
    }

    /// Decodes one value from the cursor onward.  The result is exactly
    /// what the wire grammar says of the buffer: a well-formed value tree
    /// and a cursor moved past it, or the first failure with its kind and
    /// offset.  Truncated, malformed or too deeply nested input returns an
    /// error; it never panics.
    pub fn parse(&mut self) -> (r: Result<BencodeValue, Error>)
        ensures
            final(self).spec_data() == old(self).spec_data(),
            final(self).spec_max_depth() == old(self).spec_max_depth(),
            match r {
                Ok(v) => wf_value(v) && old(self).spec_position() < final(self).spec_position()
                    <= final(self).spec_data().len() && sp_parse(
                    old(self).spec_data(),
                    old(self).spec_position(),
                    old(self).spec_max_depth(),
                ) == SpecOutcome::Parsed(view_of(v), final(self).spec_position()),
                Err(e) => final(self).spec_position() == old(self).spec_position() && sp_parse(
                    old(self).spec_data(),
                    old(self).spec_position(),
                    old(self).spec_max_depth(),
                ) == SpecOutcome::Failed(e.spec_code(), e.spec_position()),
            },
    {
        proof {
            use_type_invariant(&*self);
        }
        match self.parse_value(self.position, self.max_depth) {
            Ok((v, end)) => {
                self.position = end;
                Ok(v)
            },
            Err(e) => Err(e),
        }
    }

    /// Decodes the value starting at `pos` with `depth` container levels
    /// still allowed.
    fn parse_value(&self, pos: usize, depth: usize) -> (r: Result<(BencodeValue, usize), Error>)
        requires
            pos <= self.spec_data().len(),
        ensures
            match r {
                Ok((v, end)) => wf_value(v) && pos < end <= self.spec_data().len() && sp_parse(
                    self.spec_data(),
                    pos as int,
                    depth as nat,
                ) == SpecOutcome::Parsed(view_of(v), end as int),
                Err(e) => sp_parse(self.spec_data(), pos as int, depth as nat)
                    == SpecOutcome::Failed(e.spec_code(), e.spec_position()),
            },
        decreases depth, self.spec_data().len() - pos, 1int,
    {
        if pos == self.data.len() {
            return Err(
                Error::new(
                    ErrorCode::UnexpectedEnd,
                    pos,
                    "expected a value, found the end of the buffer".to_owned(),
                ),
            );
        }
        let c = self.data[pos];
        if c == BYTE_I {
            self.parse_int(pos)
        } else if c == BYTE_L {
            if depth == 0 {
                Err(
                    Error::new(
                        ErrorCode::DepthLimitExceeded,
                        pos,
                        "list nested deeper than the configured bound".to_owned(),
                    ),
                )
            } else {
                self.parse_list(pos, depth)
            }
        } else if c == BYTE_D {
            if depth == 0 {
                Err(
                    Error::new(
                        ErrorCode::DepthLimitExceeded,
                        pos,
                        "dictionary nested deeper than the configured bound".to_owned(),
                    ),
                )
            } else {
                self.parse_dictionary(pos, depth)
            }
        } else if c >= 48 && c <= 57 {
            self.parse_string(pos)
        } else {
            Err(
                Error::new(
                    ErrorCode::UnexpectedCharacter,
                    pos,
                    "expected 'i', 'l', 'd' or a digit".to_owned(),
                ),
            )
        }
    }

    /// Decodes an integer: `pos` points at the leading `i`.
    fn parse_int(&self, pos: usize) -> (r: Result<(BencodeValue, usize), Error>)
        requires
            pos < self.spec_data().len(),
            self.spec_data()[pos as int] == BYTE_I,
        ensures
            match r {
                Ok((v, end)) => wf_value(v) && pos < end <= self.spec_data().len()
                    && sp_parse_int(self.spec_data(), pos as int) == SpecOutcome::Parsed(
                    view_of(v),
                    end as int,
                ),
                Err(e) => sp_parse_int(self.spec_data(), pos as int) == SpecOutcome::Failed(
                    e.spec_code(),
                    e.spec_position(),
                ),
            },
    {
        let buf_len = self.data.len();
        match find_byte(&self.data, pos + 1, BYTE_E) {
            None => Err(
                Error::new(
                    ErrorCode::IntegerParseError,
                    pos + 1,
                    "missing terminator after integer".to_owned(),
                ),
            ),
            Some(epos) => {
                match parse_i64_literal(&self.data, pos + 1, epos) {
                    None => Err(
                        Error::new(
                            ErrorCode::IntegerParseError,
                            epos + 1,
                            "cannot parse integer literal".to_owned(),
                        ),
                    ),
                    Some(x) => Ok((BencodeValue::Integer(x), epos + 1)),
                }
            },
        }
    }

    /// Decodes a byte string: `pos` points at the first byte of the length
    /// prefix.
    fn parse_string(&self, pos: usize) -> (r: Result<(BencodeValue, usize), Error>)
        requires
            pos <= self.spec_data().len(),
        ensures
            match r {
                Ok((v, end)) => wf_value(v) && pos < end <= self.spec_data().len()
                    && sp_parse_str(self.spec_data(), pos as int) == SpecOutcome::Parsed(
                    view_of(v),
                    end as int,
                ),
                Err(e) => sp_parse_str(self.spec_data(), pos as int) == SpecOutcome::Failed(
                    e.spec_code(),
                    e.spec_position(),
                ),
            },
    {
        let buf_len = self.data.len();
        match find_byte(&self.data, pos, BYTE_COLON) {
            None => Err(
                Error::new(
                    ErrorCode::StringParseError,
                    pos,
                    "missing separator after string length".to_owned(),
                ),
            ),
            Some(cpos) => {
                match parse_usize_literal(&self.data, pos, cpos) {
                    None => Err(
                        Error::new(
                            ErrorCode::StringParseError,
                            pos,
                            "cannot parse string length".to_owned(),
                        ),
                    ),
                    Some(n) => {
                        let payload_start = cpos + 1;
                        if n > self.data.len() - payload_start {
                            Err(
                                Error::new(
                                    ErrorCode::UnexpectedEnd,
                                    payload_start,
                                    "string payload runs past the end of the buffer".to_owned(),
                                ),
                            )
                        } else {
                            let payload = slice_to_vec(
                                slice_subrange(
                                    self.data.as_slice(),
                                    payload_start,
                                    payload_start + n,
                                ),
                            );
                            Ok((BencodeValue::ByteString(payload), payload_start + n))
                        }
                    },
                }
            },
        }
    }

    /// Decodes a list: `pos` points at the leading `l`.
    #[verifier::loop_isolation(false)]
    fn parse_list(&self, pos: usize, depth: usize) -> (r: Result<(BencodeValue, usize), Error>)
        requires
            pos < self.spec_data().len(),
            self.spec_data()[pos as int] == BYTE_L,
            depth >= 1,
        ensures
            match r {
                Ok((v, end)) => wf_value(v) && pos < end <= self.spec_data().len() && sp_parse(
                    self.spec_data(),
                    pos as int,
                    depth as nat,
                ) == SpecOutcome::Parsed(view_of(v), end as int),
                Err(e) => sp_parse(self.spec_data(), pos as int, depth as nat)
                    == SpecOutcome::Failed(e.spec_code(), e.spec_position()),
            },
        decreases depth, self.spec_data().len() - pos, 0int,
    {
        let buf_len = self.data.len();
        let ghost s = self.spec_data();
        let ghost d1 = (depth - 1) as nat;
        let mut items: Vec<BencodeValue> = Vec::new();
        let mut cur: usize = pos + 1;
        loop
            invariant
                pos + 1 <= cur <= s.len(),
                forall|i: int| 0 <= i < items@.len() ==> wf_value(#[trigger] items@[i]),
                match sp_parse_items(s, cur as int, d1) {
                    SpecItemsOutcome::Parsed(vs, after) => sp_parse_items(s, pos + 1, d1)
                        == SpecItemsOutcome::Parsed(views_of_seq(items@) + vs, after),
                    SpecItemsOutcome::Failed(code, at) => sp_parse_items(s, pos + 1, d1)
                        == SpecItemsOutcome::Failed(code, at),
                },
            decreases s.len() - cur,
        {
            if cur == self.data.len() {
                return Err(
                    Error::new(ErrorCode::UnexpectedEnd, cur, "unterminated list".to_owned()),
                );
            }
            if self.data[cur] == BYTE_E {
                proof {
                    assert(views_of_seq(items@) + Seq::<crate::value::SpecValue>::empty()
                        =~= views_of_seq(items@));
                }
                return Ok((BencodeValue::List(items), cur + 1));
            }
            match self.parse_value(cur, depth - 1) {
                Err(e) => {
                    return Err(e);
                },
                Ok((v, end)) => {
                    proof {
                        lemma_views_of_seq_push(items@, v);
                        match sp_parse_items(s, end as int, d1) {
                            SpecItemsOutcome::Parsed(vs, after) => {
                                assert(views_of_seq(items@) + (seq![view_of(v)] + vs)
                                    =~= views_of_seq(items@.push(v)) + vs);
                            },
                            SpecItemsOutcome::Failed(_, _) => {},
                        }
                    }
                    items.push(v);
                    cur = end;
                },
            }
        }
    }

    /// Decodes a dictionary: `pos` points at the leading `d`.
    #[verifier::loop_isolation(false)]
    fn parse_dictionary(&self, pos: usize, depth: usize) -> (r: Result<
        (BencodeValue, usize),
        Error,
    >)
        requires
            pos < self.spec_data().len(),
            self.spec_data()[pos as int] == BYTE_D,
            depth >= 1,
        ensures
            match r {
                Ok((v, end)) => wf_value(v) && pos < end <= self.spec_data().len() && sp_parse(
                    self.spec_data(),
                    pos as int,
                    depth as nat,
                ) == SpecOutcome::Parsed(view_of(v), end as int),
                Err(e) => sp_parse(self.spec_data(), pos as int, depth as nat)
                    == SpecOutcome::Failed(e.spec_code(), e.spec_position()),
            },
        decreases depth, self.spec_data().len() - pos, 0int,
    {
        let buf_len = self.data.len();
        let ghost s = self.spec_data();
        let ghost d1 = (depth - 1) as nat;
        let mut pairs: Vec<(Vec<u8>, BencodeValue)> = Vec::new();
        let mut cur: usize = pos + 1;
        proof {
            match sp_parse_pairs(s, pos + 1, d1) {
                SpecPairsOutcome::Parsed(m, after) => {
                    assert(dict_map_of(pairs@).union_prefer_right(m) =~= m);
                },
                SpecPairsOutcome::Failed(_, _) => {},
            }
        }
        loop
            invariant
                pos + 1 <= cur <= s.len(),
                unique_keys(pairs@),
                forall|i: int| 0 <= i < pairs@.len() ==> wf_value((#[trigger] pairs@[i]).1),
                match sp_parse_pairs(s, cur as int, d1) {
                    SpecPairsOutcome::Parsed(m, after) => sp_parse_pairs(s, pos + 1, d1)
                        == SpecPairsOutcome::Parsed(
                        dict_map_of(pairs@).union_prefer_right(m),
                        after,
                    ),
                    SpecPairsOutcome::Failed(code, at) => sp_parse_pairs(s, pos + 1, d1)
                        == SpecPairsOutcome::Failed(code, at),
                },
            decreases s.len() - cur,
        {
            if cur == self.data.len() {
                return Err(
                    Error::new(ErrorCode::UnexpectedEnd, cur, "unterminated dictionary".to_owned()),
                );
            }
            if self.data[cur] == BYTE_E {
                proof {
                    assert(dict_map_of(pairs@).union_prefer_right(Map::empty())
                        =~= dict_map_of(pairs@));
                }
                return Ok((BencodeValue::Dict(pairs), cur + 1));
            }
            match self.parse_value(cur, depth - 1) {
                Err(e) => {
                    return Err(e);
                },
                Ok((kv, kend)) => {
                    match kv {
                        BencodeValue::ByteString(kbytes) => {
                            match self.parse_value(kend, depth - 1) {
                                Err(_) => {
                                    return Err(
                                        Error::new(
                                            ErrorCode::InvalidDictionary,
                                            kend,
                                            "cannot decode dictionary value".to_owned(),
                                        ),
                                    );
                                },
                                Ok((vv, vend)) => {
                                    proof {
                                        let a = dict_map_of(pairs@);
                                        match sp_parse_pairs(s, vend as int, d1) {
                                            SpecPairsOutcome::Parsed(m, after) => {
                                                if m.dom().contains(kbytes@) {
                                                    assert(a.union_prefer_right(m)
                                                        =~= a.insert(
                                                        kbytes@,
                                                        view_of(vv),
                                                    ).union_prefer_right(m));
                                                } else {
                                                    assert(a.union_prefer_right(
                                                        m.insert(kbytes@, view_of(vv)),
                                                    ) =~= a.insert(
                                                        kbytes@,
                                                        view_of(vv),
                                                    ).union_prefer_right(m));
                                                }
                                            },
                                            SpecPairsOutcome::Failed(_, _) => {},
                                        }
                                    }
                                    dict_insert(&mut pairs, kbytes, vv);
                                    cur = vend;
                                },
                            }
                        },
                        _ => {
                            return Err(
                                Error::new(
                                    ErrorCode::InvalidDictionary,
                                    cur,
                                    "dictionary key is not a byte string".to_owned(),
                                ),
                            );
                        },
                    }
                },
            }
        }
    }
}

} // verus!
