//! The bencode codec: a self-describing format of integers, byte strings,
//! lists and dictionaries, with a canonical encoding in which dictionary keys
//! ascend.

use vstd::prelude::*;
use vstd::string::{StringExecFns, StringSliceAdditionalSpecFns};
use crate::utils::{all_ascii, ascii_chars, lossy_string, lossy_text};
use vstd::utf8::{decode_utf8, valid_utf8};

verus! {

/// The mathematical content of a bencoded value. A dictionary is the sequence
/// of its entries in the order in which they are written.
pub ghost enum BValue {
    Int(int),
    Str(Seq<u8>),
    List(Seq<BValue>),
    Dict(Seq<(Seq<u8>, BValue)>),
}

/// One entry of a dictionary.
pub struct DictEntry {
    pub key: Vec<u8>,
    pub value: BEncoding,
}

/// A bencoded value. The entries of a dictionary are kept in strictly
/// ascending order of their keys, compared bytewise.
pub enum BEncoding {
    Dict(Vec<DictEntry>),
    List(Vec<BEncoding>),
    Int(i64),
    Str(Vec<u8>),
}

/// Strict lexicographic order on byte strings.
pub open spec fn lex_lt(a: Seq<u8>, b: Seq<u8>) -> bool
    decreases a.len(),
{
    if b.len() == 0 {
        false
    } else if a.len() == 0 {
        true
    } else {
        a[0] < b[0] || (a[0] == b[0] && lex_lt(a.drop_first(), b.drop_first()))
    }
}

/// True when the keys of the entries strictly ascend.
pub open spec fn keys_ascend(entries: Seq<(Seq<u8>, BValue)>) -> bool {
    forall|i: int, j: int| 0 <= i < j < entries.len() ==> lex_lt(entries[i].0, entries[j].0)
}

/// True when every dictionary inside the value has strictly ascending keys.
pub open spec fn canonical(v: BValue) -> bool
    decreases v,
{
    match v {
        BValue::Int(_) => true,
        BValue::Str(_) => true,
        BValue::List(items) => forall|i: int| 0 <= i < items.len() ==> canonical(#[trigger] items[i]),
        BValue::Dict(entries) => keys_ascend(entries) && forall|i: int|
            0 <= i < entries.len() ==> canonical((#[trigger] entries[i]).1),
    }
}

impl BEncoding {
    /// The mathematical content of the value.
    pub open spec fn view(&self) -> BValue
        decreases self,
    {
        match self {
            BEncoding::Int(n) => BValue::Int(*n as int),
            BEncoding::Str(s) => BValue::Str(s@),
            BEncoding::List(items) => BValue::List(
                Seq::new(
                    items@.len(),
                    |i: int|
                        if 0 <= i < items@.len() {
                            items@[i].view()
                        } else {
                            BValue::Int(0)
                        },
                ),
            ),
            BEncoding::Dict(entries) => BValue::Dict(
                Seq::new(
                    entries@.len(),
                    |i: int|
                        if 0 <= i < entries@.len() {
                            (entries@[i].key@, entries@[i].value.view())
                        } else {
                            (Seq::empty(), BValue::Int(0))
                        },
                ),
            ),
        }
    }

    /// The type's invariant: every dictionary has strictly ascending keys.
    pub open spec fn wf(&self) -> bool {
        canonical(self@)
    }
}


/// The decimal digits of `n` as ASCII codes, without leading zeros.
pub open spec fn dec_digits(n: nat) -> Seq<u8>
    decreases n,
{
    if n < 10 {
        seq![(0x30 + n) as u8]
    } else {
        dec_digits(n / 10).push((0x30 + n % 10) as u8)
    }
}

/// The decimal form of an integer: a minus sign for a negative number, then
/// the digits of its magnitude.
pub open spec fn int_digits(n: int) -> Seq<u8> {
    if n < 0 {
        seq![0x2du8] + dec_digits((-n) as nat)
    } else {
        dec_digits(n as nat)
    }
}

/// True for the ASCII codes of `0` to `9`.
pub open spec fn is_digit(c: u8) -> bool {
    0x30 <= c <= 0x39
}

/// The number that a sequence of decimal digits denotes.
pub open spec fn dec_value(digits: Seq<u8>) -> nat
    decreases digits.len(),
{
    if digits.len() == 0 {
        0
    } else {
        (dec_value(digits.drop_last()) * 10 + (digits.last() - 0x30)) as nat
    }
}

/// True for a non-empty run of digits with no leading zero, except `0` itself.
pub open spec fn plain_digits(digits: Seq<u8>) -> bool {
    &&& digits.len() >= 1
    &&& forall|i: int| 0 <= i < digits.len() ==> is_digit(digits[i])
    &&& (digits.len() > 1 ==> digits[0] != 0x30)
}

/// The canonical encoding of a byte string: its length, a colon, the bytes.
pub open spec fn encode_str_spec(s: Seq<u8>) -> Seq<u8> {
    dec_digits(s.len()).push(0x3au8) + s
}

/// The encodings of the items `from ..` in order.
pub open spec fn encode_items_spec(items: Seq<BValue>, from: int) -> Seq<u8>
    decreases items, items.len() - from,
{
    if 0 <= from < items.len() {
        encode_spec(items[from]) + encode_items_spec(items, from + 1)
    } else {
        Seq::empty()
    }
}

/// The encodings of the entries `from ..` in order, each a key and a value.
pub open spec fn encode_entries_spec(entries: Seq<(Seq<u8>, BValue)>, from: int) -> Seq<u8>
    decreases entries, entries.len() - from,
{
    if 0 <= from < entries.len() {
        encode_str_spec(entries[from].0) + encode_spec(entries[from].1) + encode_entries_spec(
            entries,
            from + 1,
        )
    } else {
        Seq::empty()
    }
}

/// The encoding of a value. Entries of a dictionary are written in the order
/// in which the value holds them.
pub open spec fn encode_spec(v: BValue) -> Seq<u8>
    decreases v, 0int,
{
    match v {
        BValue::Int(n) => seq![0x69u8] + int_digits(n) + seq![0x65u8],
        BValue::Str(s) => encode_str_spec(s),
        BValue::List(items) => seq![0x6cu8] + encode_items_spec(items, 0) + seq![0x65u8],
        BValue::Dict(entries) => seq![0x64u8] + encode_entries_spec(entries, 0) + seq![0x65u8],
    }
}


/// Appends the decimal digits of `n`.
pub fn push_decimal(out: &mut Vec<u8>, n: u64)
    ensures
        final(out)@ == old(out)@ + dec_digits(n as nat),
    decreases n,
{
    if n >= 10 {
        push_decimal(out, n / 10);
    }
    out.push(0x30u8 + (n % 10) as u8);
    assert(out@ =~= old(out)@ + dec_digits(n as nat));
}

/// Encodes an integer: `i`, the decimal form, `e`.
pub fn encode_int(num: i64) -> (data: Vec<u8>)
    ensures
        data@ == encode_spec(BValue::Int(num as int)),
{
    let mut data: Vec<u8> = Vec::new();
    data.push(0x69u8);
    if num < 0 {
        data.push(0x2du8);
        let magnitude: u64 = (-(num + 1)) as u64 + 1;
        push_decimal(&mut data, magnitude);
    } else {
        push_decimal(&mut data, num as u64);
    }
    data.push(0x65u8);
    assert(data@ =~= encode_spec(BValue::Int(num as int)));
    data
}

fn push_bytes(out: &mut Vec<u8>, input: &Vec<u8>)
    ensures
        final(out)@ == old(out)@ + input@,
{
    let mut i: usize = 0;
    while i < input.len()
        invariant
            i <= input@.len(),
            out@ == old(out)@ + input@.subrange(0, i as int),
        decreases input@.len() - i,
    {
        out.push(input[i]);
        i += 1;
        assert(out@ =~= old(out)@ + input@.subrange(0, i as int));
    }
    assert(input@.subrange(0, i as int) =~= input@);
}

/// Encodes a byte string: its length in decimal, a colon, the bytes.
pub fn encode_bytes(input: &Vec<u8>) -> (data: Vec<u8>)
    ensures
        data@ == encode_spec(BValue::Str(input@)),
{
    let mut data: Vec<u8> = Vec::new();
    push_decimal(&mut data, input.len() as u64);
    data.push(0x3au8);
    push_bytes(&mut data, input);
    assert(data@ =~= encode_str_spec(input@));
    data
}

/// Encodes a list: `l`, the encodings of the items, `e`.
pub fn encode_list(list: &Vec<BEncoding>) -> (data: Vec<u8>)
    ensures
        data@ == encode_spec(BEncoding::List(*list)@),
    decreases list,
{
    let ghost items = BEncoding::List(*list)@->List_0;
    let mut data: Vec<u8> = Vec::new();
    data.push(0x6cu8);
    let mut i: usize = 0;
    while i < list.len()
        invariant
            i <= list@.len(),
            items == BEncoding::List(*list)@->List_0,
            data@ + encode_items_spec(items, i as int) == seq![0x6cu8] + encode_items_spec(items, 0),
        decreases list@.len() - i,
    {
        let ghost before = data@;
        let part = encode_next_type(&list[i]);
        push_bytes(&mut data, &part);
        i += 1;
        assert(before + encode_items_spec(items, i - 1) =~= data@ + encode_items_spec(
            items,
            i as int,
        ));
    }
    let ghost before = data@;
    data.push(0x65u8);
    assert(data@ =~= before + encode_items_spec(items, i as int) + seq![0x65u8]);
    data
}

/// Encodes a dictionary: `d`, each key and value in the order held, `e`.
pub fn encode_dict(map: &Vec<DictEntry>) -> (data: Vec<u8>)
    ensures
        data@ == encode_spec(BEncoding::Dict(*map)@),
    decreases map,
{
    let ghost entries = BEncoding::Dict(*map)@->Dict_0;
    let mut data: Vec<u8> = Vec::new();
    data.push(0x64u8);
    let mut i: usize = 0;
    while i < map.len()
        invariant
            i <= map@.len(),
            entries == BEncoding::Dict(*map)@->Dict_0,
            data@ + encode_entries_spec(entries, i as int) == seq![0x64u8] + encode_entries_spec(
                entries,
                0,
            ),
        decreases map@.len() - i,
    {
        let ghost before = data@;
        let key = encode_bytes(&map[i].key);
        push_bytes(&mut data, &key);
        let part = encode_next_type(&map[i].value);
        push_bytes(&mut data, &part);
        i += 1;
        assert(before + encode_entries_spec(entries, i - 1) =~= data@ + encode_entries_spec(
            entries,
            i as int,
        ));
    }
    let ghost before = data@;
    data.push(0x65u8);
    assert(data@ =~= before + encode_entries_spec(entries, i as int) + seq![0x65u8]);
    data
}

/// Encodes a value of any kind.
pub fn encode_next_type(value: &BEncoding) -> (data: Vec<u8>)
    ensures
        data@ == encode_spec(value@),
    decreases value,
{
    match value {
        BEncoding::Dict(map) => encode_dict(map),
        BEncoding::List(list) => encode_list(list),
        BEncoding::Int(val) => encode_int(*val),
        BEncoding::Str(val) => encode_bytes(val),
    }
}


/// Why a byte sequence is not a bencoded value.
#[derive(Clone, Copy, Debug, PartialEq, Eq, Structural)]
pub enum DecodeReason {
    /// The input ends inside a value.
    UnexpectedEnd,
    /// A value starts with a byte that starts no kind of value.
    UnexpectedByte,
    /// An integer has no digits, a leading zero, a negative zero, or a byte
    /// that is no digit.
    InvalidInteger,
    /// An integer does not fit in 64 signed bits.
    IntegerOverflow,
    /// The length of a byte string has a leading zero or is not followed by a
    /// colon.
    InvalidLength,
    /// A dictionary key is not a byte string.
    InvalidKey,
    /// Bytes follow the end of the value.
    TrailingData,
}

/// A decoding failure: the reason and the offset of the byte at fault.
#[derive(Clone, Copy, Debug, PartialEq, Eq, Structural)]
pub struct DecodeError {
    pub reason: DecodeReason,
    pub offset: usize,
}

/// The result of parsing one item: what was read and the offset just past it,
/// or the reason of the failure and its offset.
pub type Parsed<T> = Result<(T, int), (DecodeReason, int)>;

/// The first offset from `i` on that holds no digit.
pub open spec fn digits_end(b: Seq<u8>, i: int) -> int
    decreases b.len() - i,
{
    if 0 <= i < b.len() && is_digit(b[i]) {
        digits_end(b, i + 1)
    } else {
        i
    }
}

/// Parses the integer whose `i` stands at offset `i`.
pub open spec fn parse_int(b: Seq<u8>, i: int) -> Parsed<BValue> {
    let negative = i + 1 < b.len() && b[i + 1] == 0x2d;
    let start = if negative {
        i + 2
    } else {
        i + 1
    };
    let end = digits_end(b, start);
    if end >= b.len() {
        Err((DecodeReason::UnexpectedEnd, b.len() as int))
    } else if end == start {
        Err((DecodeReason::InvalidInteger, start))
    } else if b[end] != 0x65 {
        Err((DecodeReason::InvalidInteger, end))
    } else if b[start] == 0x30 && (negative || end - start > 1) {
        Err((DecodeReason::InvalidInteger, start))
    } else {
        let magnitude = dec_value(b.subrange(start, end)) as int;
        let n = if negative {
            -magnitude
        } else {
            magnitude
        };
        if i64::MIN <= n <= i64::MAX {
            Ok((BValue::Int(n), end + 1))
        } else {
            Err((DecodeReason::IntegerOverflow, start))
        }
    }
}

/// Parses the byte string whose length starts with the digit at offset `i`.
pub open spec fn parse_str(b: Seq<u8>, i: int) -> Parsed<Seq<u8>> {
    let end = digits_end(b, i);
    if end >= b.len() {
        Err((DecodeReason::UnexpectedEnd, b.len() as int))
    } else if b[end] != 0x3a {
        Err((DecodeReason::InvalidLength, end))
    } else if b[i] == 0x30 && end - i > 1 {
        Err((DecodeReason::InvalidLength, i))
    } else {
        let n = dec_value(b.subrange(i, end)) as int;
        if end + 1 + n > b.len() {
            Err((DecodeReason::UnexpectedEnd, b.len() as int))
        } else {
            Ok((b.subrange(end + 1, end + 1 + n), end + 1 + n))
        }
    }
}

/// Parses the items of a list from offset `j` up to and including its `e`.
/// A value spans at least one byte and ends inside the input, so the test on
/// the offsets never fails.
pub open spec fn parse_items(b: Seq<u8>, j: int) -> Parsed<Seq<BValue>>
    decreases b.len() - j, 1int,
{
    if j < 0 || j >= b.len() {
        Err((DecodeReason::UnexpectedEnd, b.len() as int))
    } else if b[j] == 0x65 {
        Ok((Seq::empty(), j + 1))
    } else {
        match parse_value(b, j) {
            Err(e) => Err(e),
            Ok((v, k)) => if k <= j || k > b.len() {
                Err((DecodeReason::UnexpectedByte, j))
            } else {
                match parse_items(b, k) {
                    Err(e) => Err(e),
                    Ok((rest, end)) => Ok((seq![v] + rest, end)),
                }
            },
        }
    }
}

/// Parses the entries of a dictionary from offset `j` up to and including its
/// `e`, in the order in which they are written. A byte string and a value
/// each span at least one byte and end inside the input, so the tests on the
/// offsets never fail.
pub open spec fn parse_entries(b: Seq<u8>, j: int) -> Parsed<Seq<(Seq<u8>, BValue)>>
    decreases b.len() - j, 1int,
{
    if j < 0 || j >= b.len() {
        Err((DecodeReason::UnexpectedEnd, b.len() as int))
    } else if b[j] == 0x65 {
        Ok((Seq::empty(), j + 1))
    } else if !is_digit(b[j]) {
        Err((DecodeReason::InvalidKey, j))
    } else {
        match parse_str(b, j) {
            Err(e) => Err(e),
            Ok((key, k)) => if k <= j {
                Err((DecodeReason::InvalidKey, j))
            } else {
                match parse_value(b, k) {
                    Err(e) => Err(e),
                    Ok((v, m)) => if m <= k || m > b.len() {
                        Err((DecodeReason::UnexpectedByte, k))
                    } else {
                        match parse_entries(b, m) {
                            Err(e) => Err(e),
                            Ok((rest, end)) => Ok((seq![(key, v)] + rest, end)),
                        }
                    },
                }
            },
        }
    }
}

/// Parses the value that starts at offset `i`.
pub open spec fn parse_value(b: Seq<u8>, i: int) -> Parsed<BValue>
    decreases b.len() - i, 0int,
{
    if i < 0 || i >= b.len() {
        Err((DecodeReason::UnexpectedEnd, b.len() as int))
    } else if b[i] == 0x69 {
        parse_int(b, i)
    } else if is_digit(b[i]) {
        match parse_str(b, i) {
            Err(e) => Err(e),
            Ok((s, end)) => Ok((BValue::Str(s), end)),
        }
    } else if b[i] == 0x6c {
        match parse_items(b, i + 1) {
            Err(e) => Err(e),
            Ok((items, end)) => Ok((BValue::List(items), end)),
        }
    } else if b[i] == 0x64 {
        match parse_entries(b, i + 1) {
            Err(e) => Err(e),
            Ok((entries, end)) => Ok((BValue::Dict(entries), end)),
        }
    } else {
        Err((DecodeReason::UnexpectedByte, i))
    }
}

/// The number of leading entries whose key is below `key`.
pub open spec fn insert_pos(entries: Seq<(Seq<u8>, BValue)>, key: Seq<u8>) -> int
    decreases entries.len(),
{
    if entries.len() > 0 && lex_lt(entries[0].0, key) {
        1 + insert_pos(entries.drop_first(), key)
    } else {
        0
    }
}

/// The entries with `key` bound to `value`: the entry that has the key is
/// replaced, or a new entry is put where the order of the keys asks.
pub open spec fn dict_insert(entries: Seq<(Seq<u8>, BValue)>, key: Seq<u8>, value: BValue) -> Seq<
    (Seq<u8>, BValue),
> {
    let p = insert_pos(entries, key);
    if p < entries.len() && entries[p].0 == key {
        entries.update(p, (key, value))
    } else {
        entries.insert(p, (key, value))
    }
}

/// The dictionary built by inserting the first `upto` entries one by one,
/// each with its value in canonical form.
pub open spec fn normalize_entries(entries: Seq<(Seq<u8>, BValue)>, upto: int) -> Seq<
    (Seq<u8>, BValue),
>
    decreases entries, upto,
{
    if 0 < upto <= entries.len() {
        dict_insert(
            normalize_entries(entries, upto - 1),
            entries[upto - 1].0,
            normalize(entries[upto - 1].1),
        )
    } else {
        Seq::empty()
    }
}

/// The canonical form of a value: in every dictionary the keys ascend, and of
/// entries with the same key the last one written stays.
pub open spec fn normalize(v: BValue) -> BValue
    decreases v, 0int,
{
    match v {
        BValue::Int(n) => v,
        BValue::Str(s) => v,
        BValue::List(items) => BValue::List(
            Seq::new(
                items.len(),
                |i: int|
                    if 0 <= i < items.len() {
                        normalize(items[i])
                    } else {
                        BValue::Int(0)
                    },
            ),
        ),
        BValue::Dict(entries) => BValue::Dict(normalize_entries(entries, entries.len() as int)),
    }
}

/// What decoding a whole input yields: the canonical form of the one value
/// that spans it, or the first failure.
pub open spec fn decode_spec(b: Seq<u8>) -> Result<BValue, (DecodeReason, int)> {
    match parse_value(b, 0) {
        Err(e) => Err(e),
        Ok((v, end)) => if end == b.len() {
            Ok(normalize(v))
        } else {
            Err((DecodeReason::TrailingData, end))
        },
    }
}


proof fn lemma_digits_end(b: Seq<u8>, i: int)
    requires
        0 <= i <= b.len(),
    ensures
        i <= digits_end(b, i) <= b.len(),
        forall|k: int| i <= k < digits_end(b, i) ==> is_digit(b[k]),
        digits_end(b, i) < b.len() ==> !is_digit(b[digits_end(b, i)]),
    decreases b.len() - i,
{
    if i < b.len() && is_digit(b[i]) {
        lemma_digits_end(b, i + 1);
    }
}

proof fn lemma_digits_end_unique(b: Seq<u8>, i: int, end: int)
    requires
        0 <= i <= end <= b.len(),
        forall|k: int| i <= k < end ==> is_digit(b[k]),
        end < b.len() ==> !is_digit(b[end]),
    ensures
        digits_end(b, i) == end,
    decreases end - i,
{
    if i < end {
        lemma_digits_end_unique(b, i + 1, end);
    }
}

/// A successful parse ends past its start and inside the input, and a failure
/// is reported at an offset inside the input or at its end.
pub proof fn lemma_parse_bounds(b: Seq<u8>, i: int)
    requires
        0 <= i,
    ensures
        match parse_value(b, i) {
            Ok((_, end)) => i < end <= b.len(),
            Err((_, offset)) => 0 <= offset <= b.len(),
        },
        match parse_items(b, i) {
            Ok((_, end)) => i < end <= b.len(),
            Err((_, offset)) => 0 <= offset <= b.len(),
        },
        match parse_entries(b, i) {
            Ok((_, end)) => i < end <= b.len(),
            Err((_, offset)) => 0 <= offset <= b.len(),
        },
        is_digit(b[i]) ==> match parse_str(b, i) {
            Ok((s, end)) => i < end <= b.len(),
            Err((_, offset)) => 0 <= offset <= b.len(),
        },
    decreases b.len() - i,
{
    if i < b.len() {
        if i + 2 <= b.len() {
            lemma_digits_end(b, i + 2);
        }
        lemma_digits_end(b, i + 1);
        lemma_digits_end(b, i);
        lemma_parse_bounds(b, i + 1);
        if b[i] != 0x65 {
            match parse_value(b, i) {
                Ok((_, k)) => {
                    if i < k <= b.len() {
                        lemma_parse_bounds(b, k);
                    }
                },
                Err(_) => {},
            }
            if is_digit(b[i]) {
                match parse_str(b, i) {
                    Ok((_, k)) => {
                        lemma_parse_bounds(b, k);
                        match parse_value(b, k) {
                            Ok((_, m)) => {
                                if k < m <= b.len() {
                                    lemma_parse_bounds(b, m);
                                }
                            },
                            Err(_) => {},
                        }
                    },
                    Err(_) => {},
                }
            }
        }
    }
}


proof fn lemma_dec_value_step(b: Seq<u8>, start: int, k: int)
    requires
        0 <= start <= k < b.len(),
        is_digit(b[k]),
    ensures
        dec_value(b.subrange(start, k + 1)) == dec_value(b.subrange(start, k)) * 10 + (b[k]
            - 0x30),
{
    assert(b.subrange(start, k + 1).drop_last() =~= b.subrange(start, k));
}

proof fn lemma_dec_value_grows(b: Seq<u8>, start: int, k: int, end: int)
    requires
        0 <= start <= k <= end <= b.len(),
        forall|j: int| start <= j < end ==> is_digit(b[j]),
    ensures
        dec_value(b.subrange(start, k)) <= dec_value(b.subrange(start, end)),
    decreases end - k,
{
    if k < end {
        lemma_dec_value_step(b, start, end - 1);
        lemma_dec_value_grows(b, start, k, end - 1);
    }
}

/// How a decoder's result stands for a parse: the same end offset and the
/// canonical form of the value, or the same reason and offset.
pub open spec fn same_outcome(
    r: Result<(BEncoding, usize), DecodeError>,
    p: Parsed<BValue>,
) -> bool {
    match p {
        Ok((v, end)) => r matches Ok((x, e)) && x@ == normalize(v) && e == end,
        Err((reason, offset)) => r matches Err(err) && err.reason == reason && err.offset
            == offset,
    }
}

/// How a decoded byte string stands for a parse.
pub open spec fn same_str_outcome(
    r: Result<(Vec<u8>, usize), DecodeError>,
    p: Parsed<Seq<u8>>,
) -> bool {
    match p {
        Ok((s, end)) => r matches Ok((x, e)) && x@ == s && e == end,
        Err((reason, offset)) => r matches Err(err) && err.reason == reason && err.offset
            == offset,
    }
}

fn scan_digits(buf: &[u8], start: usize) -> (end: usize)
    requires
        start <= buf@.len(),
    ensures
        end == digits_end(buf@, start as int),
        start <= end <= buf@.len(),
        forall|k: int| start <= k < end ==> is_digit(buf@[k]),
{
    let mut end: usize = start;
    while end < buf.len() && 0x30 <= buf[end] && buf[end] <= 0x39
        invariant
            start <= end <= buf@.len(),
            forall|k: int| start <= k < end ==> is_digit(buf@[k]),
        decreases buf@.len() - end,
    {
        end += 1;
    }
    proof {
        lemma_digits_end_unique(buf@, start as int, end as int);
    }
    end
}

/// Decodes the integer that starts at `pos`.
pub fn decode_int(buf: &[u8], pos: usize) -> (r: Result<(BEncoding, usize), DecodeError>)
    requires
        pos < buf@.len(),
        buf@[pos as int] == 0x69,
    ensures
        same_outcome(r, parse_int(buf@, pos as int)),
{
    let len: usize = buf.len();
    let negative = pos + 1 < len && buf[pos + 1] == 0x2d;
    let start: usize = if negative {
        pos + 2
    } else {
        pos + 1
    };
    let end = scan_digits(buf, start);
    if end >= buf.len() {
        return Err(DecodeError { reason: DecodeReason::UnexpectedEnd, offset: buf.len() });
    }
    if end == start {
        return Err(DecodeError { reason: DecodeReason::InvalidInteger, offset: start });
    }
    if buf[end] != 0x65 {
        return Err(DecodeError { reason: DecodeReason::InvalidInteger, offset: end });
    }
    if buf[start] == 0x30 && (negative || end - start > 1) {
        return Err(DecodeError { reason: DecodeReason::InvalidInteger, offset: start });
    }
    let limit: u64 = if negative {
        0x8000_0000_0000_0000
    } else {
        0x7fff_ffff_ffff_ffff
    };
    let mut acc: u64 = 0;
    let mut k: usize = start;
    while k < end
        invariant
            start <= k <= end < buf@.len(),
            forall|j: int| start <= j < end ==> is_digit(buf@[j]),
            acc == dec_value(buf@.subrange(start as int, k as int)),
            acc <= limit,
            limit == (if negative {
                0x8000_0000_0000_0000u64
            } else {
                0x7fff_ffff_ffff_ffffu64
            }),
            end == digits_end(buf@, start as int),
            start == (if negative {
                pos + 2
            } else {
                pos + 1
            }),
            negative == (pos + 1 < buf@.len() && buf@[pos + 1] == 0x2d),
            buf@[end as int] == 0x65,
            !(buf@[start as int] == 0x30 && (negative || end - start > 1)),
        decreases end - k,
    {
        let d: u64 = (buf[k] - 0x30) as u64;
        proof {
            lemma_dec_value_step(buf@, start as int, k as int);
            lemma_dec_value_grows(buf@, start as int, k + 1, end as int);
        }
        if acc > (limit - d) / 10 {
            return Err(DecodeError { reason: DecodeReason::IntegerOverflow, offset: start });
        }
        acc = acc * 10 + d;
        k += 1;
    }
    let n: i64 = if negative {
        if acc == 0x8000_0000_0000_0000 {
            i64::MIN
        } else {
            -(acc as i64)
        }
    } else {
        acc as i64
    };
    Ok((BEncoding::Int(n), end + 1))
}

/// Decodes the byte string whose length starts at `pos`.
pub fn decode_str(buf: &[u8], pos: usize) -> (r: Result<(Vec<u8>, usize), DecodeError>)
    requires
        pos < buf@.len(),
        is_digit(buf@[pos as int]),
    ensures
        same_str_outcome(r, parse_str(buf@, pos as int)),
{
    let len: usize = buf.len();
    let end = scan_digits(buf, pos);
    if end >= len {
        return Err(DecodeError { reason: DecodeReason::UnexpectedEnd, offset: len });
    }
    if buf[end] != 0x3a {
        return Err(DecodeError { reason: DecodeReason::InvalidLength, offset: end });
    }
    if buf[pos] == 0x30 && end - pos > 1 {
        return Err(DecodeError { reason: DecodeReason::InvalidLength, offset: pos });
    }
    let mut acc: usize = 0;
    let mut k: usize = pos;
    while k < end
        invariant
            pos <= k <= end < len,
            len == buf@.len(),
            forall|j: int| pos <= j < end ==> is_digit(buf@[j]),
            acc == dec_value(buf@.subrange(pos as int, k as int)),
            acc <= len,
            end == digits_end(buf@, pos as int),
            buf@[end as int] == 0x3a,
            !(buf@[pos as int] == 0x30 && end - pos > 1),
        decreases end - k,
    {
        let d: usize = (buf[k] - 0x30) as usize;
        proof {
            lemma_dec_value_step(buf@, pos as int, k as int);
            lemma_dec_value_grows(buf@, pos as int, k + 1, end as int);
        }
        if acc > len / 10 {
            return Err(DecodeError { reason: DecodeReason::UnexpectedEnd, offset: len });
        }
        if d > len - acc * 10 {
            return Err(DecodeError { reason: DecodeReason::UnexpectedEnd, offset: len });
        }
        acc = acc * 10 + d;
        k += 1;
    }
    if acc > len - end - 1 {
        return Err(DecodeError { reason: DecodeReason::UnexpectedEnd, offset: len });
    }
    let bytes = vstd::slice::slice_to_vec(vstd::slice::slice_subrange(buf, end + 1, end + 1 + acc));
    Ok((bytes, end + 1 + acc))
}


/// Bytewise equality of two byte strings.
pub fn bytes_equal(a: &[u8], b: &[u8]) -> (same: bool)
    ensures
        same == (a@ == b@),
{
    if a.len() != b.len() {
        return false;
    }
    let mut i: usize = 0;
    while i < a.len()
        invariant
            i <= a@.len(),
            a@.len() == b@.len(),
            forall|k: int| 0 <= k < i ==> a@[k] == b@[k],
        decreases a@.len() - i,
    {
        if a[i] != b[i] {
            return false;
        }
        i += 1;
    }
    assert(a@ =~= b@);
    true
}

/// Strict lexicographic comparison of two byte strings.
pub fn lex_less(a: &[u8], b: &[u8]) -> (less: bool)
    ensures
        less == lex_lt(a@, b@),
{
    let mut i: usize = 0;
    assert(a@.subrange(0, a@.len() as int) =~= a@);
    assert(b@.subrange(0, b@.len() as int) =~= b@);
    while i < a.len() && i < b.len()
        invariant
            i <= a@.len(),
            i <= b@.len(),
            lex_lt(a@, b@) == lex_lt(
                a@.subrange(i as int, a@.len() as int),
                b@.subrange(i as int, b@.len() as int),
            ),
        decreases a@.len() - i,
    {
        let ghost ra = a@.subrange(i as int, a@.len() as int);
        let ghost rb = b@.subrange(i as int, b@.len() as int);
        assert(ra[0] == a@[i as int] && rb[0] == b@[i as int]);
        if a[i] < b[i] {
            return true;
        }
        if a[i] > b[i] {
            return false;
        }
        assert(ra.drop_first() =~= a@.subrange(i + 1, a@.len() as int));
        assert(rb.drop_first() =~= b@.subrange(i + 1, b@.len() as int));
        i += 1;
    }
    i < b.len()
}

proof fn lemma_insert_pos(entries: Seq<(Seq<u8>, BValue)>, key: Seq<u8>, p: int)
    requires
        0 <= p <= entries.len(),
        forall|j: int| 0 <= j < p ==> lex_lt(entries[j].0, key),
        p < entries.len() ==> !lex_lt(entries[p].0, key),
    ensures
        insert_pos(entries, key) == p,
    decreases p,
{
    if p > 0 {
        let rest = entries.drop_first();
        assert forall|j: int| 0 <= j < p - 1 implies lex_lt(rest[j].0, key) by {
            assert(rest[j] == entries[j + 1]);
        }
        if p - 1 < rest.len() {
            assert(rest[p - 1] == entries[p]);
        }
        lemma_insert_pos(rest, key, p - 1);
    }
}

/// The entries of a dictionary as the contracts see them.
pub open spec fn entries_view(map: Vec<DictEntry>) -> Seq<(Seq<u8>, BValue)> {
    BEncoding::Dict(map)@->Dict_0
}

/// The items of a list as the contracts see them.
pub open spec fn items_view(list: Vec<BEncoding>) -> Seq<BValue> {
    BEncoding::List(list)@->List_0
}

/// Binds `key` to `value` in a dictionary: replaces the entry with that key
/// or inserts a new one where the order of the keys asks.
pub fn dict_put(map: &mut Vec<DictEntry>, key: Vec<u8>, value: BEncoding)
    ensures
        entries_view(*final(map)) == dict_insert(entries_view(*old(map)), key@, value@),
{
    let ghost before = entries_view(*map);
    let mut p: usize = 0;
    while p < map.len() && lex_less(map[p].key.as_slice(), key.as_slice())
        invariant
            p <= map@.len(),
            *map == *old(map),
            before == entries_view(*map),
            forall|j: int| 0 <= j < p ==> lex_lt(before[j].0, key@),
        decreases map@.len() - p,
    {
        p += 1;
    }
    proof {
        lemma_insert_pos(before, key@, p as int);
    }
    if p < map.len() && bytes_equal(map[p].key.as_slice(), key.as_slice()) {
        map[p] = DictEntry { key, value };
        assert(entries_view(*map) =~= before.update(p as int, (key@, value@)));
    } else {
        map.insert(p, DictEntry { key, value });
        assert(entries_view(*map) =~= before.insert(p as int, (key@, value@)));
    }
}


/// A parse of further items, with the items already read put in front.
pub open spec fn after_items(prefix: Seq<BValue>, p: Parsed<Seq<BValue>>) -> Parsed<Seq<BValue>> {
    match p {
        Ok((rest, end)) => Ok((prefix + rest, end)),
        Err(e) => Err(e),
    }
}

/// A parse of further entries, with the entries already read put in front.
pub open spec fn after_entries(
    prefix: Seq<(Seq<u8>, BValue)>,
    p: Parsed<Seq<(Seq<u8>, BValue)>>,
) -> Parsed<Seq<(Seq<u8>, BValue)>> {
    match p {
        Ok((rest, end)) => Ok((prefix + rest, end)),
        Err(e) => Err(e),
    }
}

proof fn lemma_normalize_entries_prefix(
    a: Seq<(Seq<u8>, BValue)>,
    b: Seq<(Seq<u8>, BValue)>,
    upto: int,
)
    requires
        0 <= upto <= a.len(),
        upto <= b.len(),
        forall|i: int| 0 <= i < upto ==> a[i] == b[i],
    ensures
        normalize_entries(a, upto) == normalize_entries(b, upto),
    decreases upto,
{
    if upto > 0 {
        lemma_normalize_entries_prefix(a, b, upto - 1);
    }
}

/// Decodes the list that starts at `pos`.
pub fn decode_list(buf: &[u8], pos: usize) -> (r: Result<(BEncoding, usize), DecodeError>)
    requires
        pos < buf@.len(),
        buf@[pos as int] == 0x6c,
    ensures
        same_outcome(r, parse_value(buf@, pos as int)),
    decreases buf@.len() - pos, 0int,
{
    let len: usize = buf.len();
    let mut list: Vec<BEncoding> = Vec::new();
    let mut cur: usize = pos + 1;
    let ghost mut raw: Seq<BValue> = Seq::empty();
    assert(parse_items(buf@, pos + 1) == after_items(raw, parse_items(buf@, cur as int))) by {
        match parse_items(buf@, cur as int) {
            Ok((rest, end)) => {
                assert(raw + rest =~= rest);
            },
            Err(_) => {},
        }
    }
    loop
        invariant
            pos < cur <= len,
            len == buf@.len(),
            buf@[pos as int] == 0x6c,
            parse_items(buf@, pos + 1) == after_items(raw, parse_items(buf@, cur as int)),
            list@.len() == raw.len(),
            forall|i: int| 0 <= i < raw.len() ==> list@[i]@ == normalize(raw[i]),
        decreases len - cur,
    {
        if cur >= len {
            return Err(DecodeError { reason: DecodeReason::UnexpectedEnd, offset: len });
        }
        if buf[cur] == 0x65 {
            proof {
                assert(raw + Seq::<BValue>::empty() =~= raw);
                assert(BEncoding::List(list)@ =~= normalize(BValue::List(raw))) by {
                    assert(items_view(list) =~= normalize(BValue::List(raw))->List_0);
                }
            }
            return Ok((BEncoding::List(list), cur + 1));
        }
        proof {
            lemma_parse_bounds(buf@, cur as int);
        }
        match decode_next_type(buf, cur) {
            Err(e) => {
                return Err(e);
            },
            Ok((item, next)) => {
                proof {
                    let v = parse_value(buf@, cur as int)->Ok_0.0;
                    match parse_items(buf@, next as int) {
                        Ok((rest, end)) => {
                            assert(raw + (seq![v] + rest) =~= raw.push(v) + rest);
                        },
                        Err(_) => {},
                    }
                    raw = raw.push(v);
                }
                list.push(item);
                cur = next;
            },
        }
    }
}

/// Decodes the dictionary that starts at `pos`. Of entries with the same key
/// the last one stays.
pub fn decode_dict(buf: &[u8], pos: usize) -> (r: Result<(BEncoding, usize), DecodeError>)
    requires
        pos < buf@.len(),
        buf@[pos as int] == 0x64,
    ensures
        same_outcome(r, parse_value(buf@, pos as int)),
    decreases buf@.len() - pos, 0int,
{
    let len: usize = buf.len();
    let mut map: Vec<DictEntry> = Vec::new();
    let mut cur: usize = pos + 1;
    let ghost mut raw: Seq<(Seq<u8>, BValue)> = Seq::empty();
    assert(parse_entries(buf@, pos + 1) == after_entries(raw, parse_entries(buf@, cur as int)))
        by {
        match parse_entries(buf@, cur as int) {
            Ok((rest, end)) => {
                assert(raw + rest =~= rest);
            },
            Err(_) => {},
        }
    }
    assert(entries_view(map) =~= normalize_entries(raw, 0));
    loop
        invariant
            pos < cur <= len,
            len == buf@.len(),
            buf@[pos as int] == 0x64,
            parse_entries(buf@, pos + 1) == after_entries(raw, parse_entries(buf@, cur as int)),
            entries_view(map) == normalize_entries(raw, raw.len() as int),
        decreases len - cur,
    {
        if cur >= len {
            return Err(DecodeError { reason: DecodeReason::UnexpectedEnd, offset: len });
        }
        if buf[cur] == 0x65 {
            proof {
                assert(raw + Seq::<(Seq<u8>, BValue)>::empty() =~= raw);
            }
            return Ok((BEncoding::Dict(map), cur + 1));
        }
        if !(0x30 <= buf[cur] && buf[cur] <= 0x39) {
            return Err(DecodeError { reason: DecodeReason::InvalidKey, offset: cur });
        }
        proof {
            lemma_parse_bounds(buf@, cur as int);
        }
        let (key, mid) = match decode_str(buf, cur) {
            Err(e) => {
                return Err(e);
            },
            Ok(x) => x,
        };
        proof {
            lemma_parse_bounds(buf@, mid as int);
        }
        match decode_next_type(buf, mid) {
            Err(e) => {
                return Err(e);
            },
            Ok((value, next)) => {
                proof {
                    let v = parse_value(buf@, mid as int)->Ok_0.0;
                    let entry = (key@, v);
                    match parse_entries(buf@, next as int) {
                        Ok((rest, end)) => {
                            assert(raw + (seq![entry] + rest) =~= raw.push(entry) + rest);
                        },
                        Err(_) => {},
                    }
                    lemma_normalize_entries_prefix(raw, raw.push(entry), raw.len() as int);
                    raw = raw.push(entry);
                }
                dict_put(&mut map, key, value);
                cur = next;
            },
        }
    }
}

/// Decodes the value of any kind that starts at `pos`.
pub fn decode_next_type(buf: &[u8], pos: usize) -> (r: Result<(BEncoding, usize), DecodeError>)
    ensures
        same_outcome(r, parse_value(buf@, pos as int)),
    decreases buf@.len() - pos, 1int,
{
    if pos >= buf.len() {
        return Err(DecodeError { reason: DecodeReason::UnexpectedEnd, offset: buf.len() });
    }
    let first: u8 = buf[pos];
    if first == 0x69 {
        decode_int(buf, pos)
    } else if 0x30 <= first && first <= 0x39 {
        match decode_str(buf, pos) {
            Err(e) => Err(e),
            Ok((bytes, end)) => Ok((BEncoding::Str(bytes), end)),
        }
    } else if first == 0x6c {
        decode_list(buf, pos)
    } else if first == 0x64 {
        decode_dict(buf, pos)
    } else {
        Err(DecodeError { reason: DecodeReason::UnexpectedByte, offset: pos })
    }
}


/// Why a typed read of a value fails.
#[derive(Debug)]
pub enum BEncodingParseError {
    NotADict,
    NotAList,
    NotAInt,
    NotAStr,
    /// The byte string is not valid UTF-8.
    NotUtf8,
    MissingKey(String),
}

/// Calls `std::str::from_utf8` and copies the text it returns. That function
/// succeeds exactly on valid UTF-8, and the text then holds the characters
/// that the bytes encode.
#[verifier::external_body]
fn utf8_text(bytes: &Vec<u8>) -> (text: Option<String>)
    ensures
        text is Some <==> valid_utf8(bytes@),
        text matches Some(t) ==> t@ == decode_utf8(bytes@),
{
    match std::str::from_utf8(bytes) {
        Ok(s) => Some(s.to_string()),
        Err(_) => None,
    }
}

/// The first index from `from` on whose entry has the key, or the number of
/// entries when there is none.
pub open spec fn key_index(entries: Seq<DictEntry>, key: Seq<u8>, from: int) -> int
    decreases entries.len() - from,
{
    if 0 <= from < entries.len() {
        if entries[from].key@ == key {
            from
        } else {
            key_index(entries, key, from + 1)
        }
    } else {
        entries.len() as int
    }
}

/// What `to_int` owes for the value `v`.
pub open spec fn int_of(v: BEncoding, r: Result<i64, BEncodingParseError>) -> bool {
    match v {
        BEncoding::Int(n) => r matches Ok(x) && x == n,
        _ => r matches Err(BEncodingParseError::NotAInt),
    }
}

/// What `to_dict` owes for the value `v`.
pub open spec fn dict_of(v: BEncoding, r: Result<&Vec<DictEntry>, BEncodingParseError>) -> bool {
    match v {
        BEncoding::Dict(map) => r matches Ok(m) && *m == map,
        _ => r matches Err(BEncodingParseError::NotADict),
    }
}

/// What `to_list` owes for the value `v`.
pub open spec fn list_of(v: BEncoding, r: Result<&Vec<BEncoding>, BEncodingParseError>) -> bool {
    match v {
        BEncoding::List(list) => r matches Ok(l) && *l == list,
        _ => r matches Err(BEncodingParseError::NotAList),
    }
}

/// What `to_str` owes for the value `v`.
pub open spec fn text_of(v: BEncoding, r: Result<String, BEncodingParseError>) -> bool {
    match v {
        BEncoding::Str(val) => if valid_utf8(val@) {
            r matches Ok(t) && t@ == decode_utf8(val@)
        } else {
            r matches Err(BEncodingParseError::NotUtf8)
        },
        _ => r matches Err(BEncodingParseError::NotAStr),
    }
}

/// What `to_bytes` owes for the value `v`.
pub open spec fn bytes_of(v: BEncoding, r: Result<Vec<u8>, BEncodingParseError>) -> bool {
    match v {
        BEncoding::Str(val) => r matches Ok(b) && b@ == val@,
        _ => r matches Err(BEncodingParseError::NotAStr),
    }
}

impl BEncoding {
    /// True when the value is a dictionary with an entry for `key`.
    pub open spec fn has_key(&self, key: Seq<u8>) -> bool {
        self matches BEncoding::Dict(map) && key_index(map@, key, 0) < map@.len()
    }

    /// The value of the first entry for `key` in a dictionary that has one.
    pub open spec fn value_at(&self, key: Seq<u8>) -> BEncoding
        recommends
            self.has_key(key),
    {
        let map = self->Dict_0;
        map@[key_index(map@, key, 0)].value
    }

    /// The error that a lookup of `key` owes where `has_key` does not hold.
    pub open spec fn lookup_error(&self, key: &str, e: BEncodingParseError) -> bool {
        if self is Dict {
            e matches BEncodingParseError::MissingKey(k) && k@ == key@
        } else {
            e is NotADict
        }
    }

    /// Decodes one value that spans the whole input. Dictionary keys may come
    /// in any order; the value returned holds them in ascending order.
    pub fn decode(buf: Vec<u8>) -> (r: Result<BEncoding, DecodeError>)
        ensures
            match decode_spec(buf@) {
                Ok(v) => r matches Ok(x) && x@ == v && x.wf(),
                Err((reason, offset)) => r matches Err(e) && e.reason == reason && e.offset
                    == offset,
            },
    {
        match decode_next_type(buf.as_slice(), 0) {
            Err(e) => Err(e),
            Ok((value, end)) => {
                if end == buf.len() {
                    proof {
                        lemma_normalize_canonical(parse_value(buf@, 0)->Ok_0.0);
                    }
                    Ok(value)
                } else {
                    Err(DecodeError { reason: DecodeReason::TrailingData, offset: end })
                }
            },
        }
    }

    /// Encodes a value; dictionary entries are written in the order held,
    /// which for a well-formed value is ascending key order.
    pub fn encode(val: &BEncoding) -> (data: Vec<u8>)
        ensures
            data@ == encode_spec(val@),
    {
        encode_next_type(val)
    }

    /// The integer, when the value is one.
    pub fn to_int(&self) -> (r: Result<i64, BEncodingParseError>)
        ensures
            int_of(*self, r),
    {
        match self {
            BEncoding::Int(val) => Ok(*val),
            _ => Err(BEncodingParseError::NotAInt),
        }
    }

    /// The entries, when the value is a dictionary.
    pub fn to_dict(&self) -> (r: Result<&Vec<DictEntry>, BEncodingParseError>)
        ensures
            dict_of(*self, r),
    {
        match self {
            BEncoding::Dict(map) => Ok(map),
            _ => Err(BEncodingParseError::NotADict),
        }
    }

    /// The items, when the value is a list.
    pub fn to_list(&self) -> (r: Result<&Vec<BEncoding>, BEncodingParseError>)
        ensures
            list_of(*self, r),
    {
        match self {
            BEncoding::List(list) => Ok(list),
            _ => Err(BEncodingParseError::NotAList),
        }
    }

    /// The text, when the value is a byte string that holds valid UTF-8.
    pub fn to_str(&self) -> (r: Result<String, BEncodingParseError>)
        ensures
            text_of(*self, r),
    {
        match self {
            BEncoding::Str(val) => match utf8_text(val) {
                Some(text) => Ok(text),
                None => Err(BEncodingParseError::NotUtf8),
            },
            _ => Err(BEncodingParseError::NotAStr),
        }
    }

    /// The bytes, when the value is a byte string.
    pub fn to_bytes(&self) -> (r: Result<Vec<u8>, BEncodingParseError>)
        ensures
            bytes_of(*self, r),
    {
        match self {
            BEncoding::Str(val) => Ok(vstd::slice::slice_to_vec(val.as_slice())),
            _ => Err(BEncodingParseError::NotAStr),
        }
    }

    /// The value bound to `key`, when this value is a dictionary that has the
    /// key. The key is compared by its UTF-8 bytes.
    pub fn get_value(&self, key: &str) -> (r: Result<&BEncoding, BEncodingParseError>)
        ensures
            if self.has_key(key.spec_bytes()) {
                r matches Ok(v) && *v == self.value_at(key.spec_bytes())
            } else {
                r matches Err(e) && self.lookup_error(key, e)
            },
    {
        match self {
            BEncoding::Dict(map) => {
                let wanted = key.as_bytes();
                let mut i: usize = 0;
                while i < map.len()
                    invariant
                        i <= map@.len(),
                        self matches BEncoding::Dict(m) && m == map,
                        wanted@ == key.spec_bytes(),
                        key_index(map@, wanted@, 0) == key_index(map@, wanted@, i as int),
                    decreases map@.len() - i,
                {
                    if bytes_equal(map[i].key.as_slice(), wanted) {
                        assert(key_index(map@, wanted@, i as int) == i);
                        return Ok(&map[i].value);
                    }
                    i += 1;
                }
                Err(BEncodingParseError::MissingKey(key.to_owned()))
            },
            _ => Err(BEncodingParseError::NotADict),
        }
    }

    /// The dictionary bound to `key`.
    pub fn get_dict(&self, key: &str) -> (r: Result<&BEncoding, BEncodingParseError>)
        ensures
            if self.has_key(key.spec_bytes()) {
                if self.value_at(key.spec_bytes()) is Dict {
                    r matches Ok(v) && *v == self.value_at(key.spec_bytes())
                } else {
                    r matches Err(BEncodingParseError::NotADict)
                }
            } else {
                r matches Err(e) && self.lookup_error(key, e)
            },
    {
        let value = self.get_value(key)?;
        match value {
            BEncoding::Dict(_) => Ok(value),
            _ => Err(BEncodingParseError::NotADict),
        }
    }

    /// The integer bound to `key`.
    pub fn get_int(&self, key: &str) -> (r: Result<i64, BEncodingParseError>)
        ensures
            if self.has_key(key.spec_bytes()) {
                int_of(self.value_at(key.spec_bytes()), r)
            } else {
                r matches Err(e) && self.lookup_error(key, e)
            },
    {
        let value = self.get_value(key)?;
        value.to_int()
    }

    /// The text bound to `key`.
    pub fn get_str(&self, key: &str) -> (r: Result<String, BEncodingParseError>)
        ensures
            if self.has_key(key.spec_bytes()) {
                text_of(self.value_at(key.spec_bytes()), r)
            } else {
                r matches Err(e) && self.lookup_error(key, e)
            },
    {
        let value = self.get_value(key)?;
        value.to_str()
    }

    /// The bytes bound to `key`.
    pub fn get_bytes(&self, key: &str) -> (r: Result<Vec<u8>, BEncodingParseError>)
        ensures
            if self.has_key(key.spec_bytes()) {
                bytes_of(self.value_at(key.spec_bytes()), r)
            } else {
                r matches Err(e) && self.lookup_error(key, e)
            },
    {
        let value = self.get_value(key)?;
        value.to_bytes()
    }

    /// The list bound to `key`.
    pub fn get_list(&self, key: &str) -> (r: Result<&Vec<BEncoding>, BEncodingParseError>)
        ensures
            if self.has_key(key.spec_bytes()) {
                list_of(self.value_at(key.spec_bytes()), r)
            } else {
                r matches Err(e) && self.lookup_error(key, e)
            },
    {
        let value = self.get_value(key)?;
        value.to_list()
    }
}

proof fn lemma_lex_lt_strict(a: Seq<u8>, b: Seq<u8>)
    ensures
        !(lex_lt(a, b) && lex_lt(b, a)),
        lex_lt(a, b) ==> a != b,
        lex_lt(a, b) || a == b || lex_lt(b, a),
    decreases a.len(),
{
    if a.len() > 0 && b.len() > 0 {
        lemma_lex_lt_strict(a.drop_first(), b.drop_first());
        if a[0] == b[0] && a.drop_first() == b.drop_first() {
            assert(a =~= seq![a[0]] + a.drop_first());
            assert(b =~= seq![b[0]] + b.drop_first());
        }
    } else if a.len() == 0 && b.len() == 0 {
        assert(a =~= b);
    }
}

proof fn lemma_lex_lt_trans(a: Seq<u8>, b: Seq<u8>, c: Seq<u8>)
    requires
        lex_lt(a, b),
        lex_lt(b, c),
    ensures
        lex_lt(a, c),
    decreases a.len(),
{
    if a.len() > 0 && b.len() > 0 && c.len() > 0 {
        if a[0] == b[0] && b[0] == c[0] {
            lemma_lex_lt_trans(a.drop_first(), b.drop_first(), c.drop_first());
        }
    }
}

proof fn lemma_insert_pos_facts(entries: Seq<(Seq<u8>, BValue)>, key: Seq<u8>)
    ensures
        0 <= insert_pos(entries, key) <= entries.len(),
        forall|j: int| 0 <= j < insert_pos(entries, key) ==> lex_lt(entries[j].0, key),
        insert_pos(entries, key) < entries.len() ==> !lex_lt(
            entries[insert_pos(entries, key)].0,
            key,
        ),
    decreases entries.len(),
{
    if entries.len() > 0 && lex_lt(entries[0].0, key) {
        let rest = entries.drop_first();
        lemma_insert_pos_facts(rest, key);
        assert forall|j: int| 0 <= j < insert_pos(entries, key) implies lex_lt(
            entries[j].0,
            key,
        ) by {
            if j > 0 {
                assert(entries[j] == rest[j - 1]);
            }
        }
        if insert_pos(entries, key) < entries.len() {
            assert(entries[insert_pos(entries, key)] == rest[insert_pos(rest, key)]);
        }
    }
}

/// True when every value among the entries is canonical.
pub open spec fn values_canonical(entries: Seq<(Seq<u8>, BValue)>) -> bool {
    forall|i: int| 0 <= i < entries.len() ==> canonical((#[trigger] entries[i]).1)
}

/// Inserting into a dictionary with ascending keys and canonical values keeps
/// both.
pub proof fn lemma_dict_insert_canonical(
    entries: Seq<(Seq<u8>, BValue)>,
    key: Seq<u8>,
    value: BValue,
)
    requires
        keys_ascend(entries),
        values_canonical(entries),
        canonical(value),
    ensures
        keys_ascend(dict_insert(entries, key, value)),
        values_canonical(dict_insert(entries, key, value)),
{
    let p = insert_pos(entries, key);
    let out = dict_insert(entries, key, value);
    lemma_insert_pos_facts(entries, key);
    if p < entries.len() && entries[p].0 == key {
        assert forall|i: int, j: int| 0 <= i < j < out.len() implies lex_lt(out[i].0, out[j].0) by {
            assert(out[i].0 == entries[i].0);
            assert(out[j].0 == entries[j].0);
        }
        assert forall|i: int| 0 <= i < out.len() implies canonical((#[trigger] out[i]).1) by {
            if i != p {
                assert(out[i] == entries[i]);
            }
        }
    } else {
        assert forall|i: int, j: int| 0 <= i < j < out.len() implies lex_lt(out[i].0, out[j].0) by {
            if j < p {
                assert(out[i] == entries[i] && out[j] == entries[j]);
            } else if j == p {
                assert(out[i] == entries[i]);
            } else if i == p {
                assert(out[j] == entries[j - 1]);
                lemma_lex_lt_strict(entries[p].0, key);
                if j - 1 > p {
                    lemma_lex_lt_trans(key, entries[p].0, entries[j - 1].0);
                }
            } else if i < p {
                assert(out[i] == entries[i] && out[j] == entries[j - 1]);
            } else {
                assert(out[i] == entries[i - 1] && out[j] == entries[j - 1]);
            }
        }
        assert forall|i: int| 0 <= i < out.len() implies canonical((#[trigger] out[i]).1) by {
            if i < p {
                assert(out[i] == entries[i]);
            } else if i > p {
                assert(out[i] == entries[i - 1]);
            }
        }
    }
}

proof fn lemma_normalize_entries_canonical(entries: Seq<(Seq<u8>, BValue)>, upto: int)
    ensures
        keys_ascend(normalize_entries(entries, upto)),
        values_canonical(normalize_entries(entries, upto)),
    decreases entries, upto,
{
    if 0 < upto <= entries.len() {
        lemma_normalize_entries_canonical(entries, upto - 1);
        lemma_normalize_canonical(entries[upto - 1].1);
        lemma_dict_insert_canonical(
            normalize_entries(entries, upto - 1),
            entries[upto - 1].0,
            normalize(entries[upto - 1].1),
        );
    }
}

/// The canonical form of any value is canonical.
pub proof fn lemma_normalize_canonical(v: BValue)
    ensures
        canonical(normalize(v)),
    decreases v, 0int,
{
    match v {
        BValue::Int(_) => {},
        BValue::Str(_) => {},
        BValue::List(items) => {
            let out = normalize(v)->List_0;
            assert forall|i: int| 0 <= i < out.len() implies canonical(#[trigger] out[i]) by {
                lemma_normalize_canonical(items[i]);
            }
        },
        BValue::Dict(entries) => {
            lemma_normalize_entries_canonical(entries, entries.len() as int);
        },
    }
}


proof fn lemma_normalize_entries_identity(entries: Seq<(Seq<u8>, BValue)>, upto: int)
    requires
        keys_ascend(entries),
        values_canonical(entries),
        0 <= upto <= entries.len(),
    ensures
        normalize_entries(entries, upto) == entries.subrange(0, upto),
    decreases entries, upto,
{
    if upto > 0 {
        lemma_normalize_entries_identity(entries, upto - 1);
        lemma_normalize_identity(entries[upto - 1].1);
        let prev = entries.subrange(0, upto - 1);
        lemma_insert_pos(prev, entries[upto - 1].0, upto - 1);
        assert(prev.insert(upto - 1, entries[upto - 1]) =~= entries.subrange(0, upto));
    } else {
        assert(normalize_entries(entries, upto) =~= entries.subrange(0, upto));
    }
}

/// A canonical value is its own canonical form.
pub proof fn lemma_normalize_identity(v: BValue)
    requires
        canonical(v),
    ensures
        normalize(v) == v,
    decreases v, 0int,
{
    match v {
        BValue::Int(_) => {},
        BValue::Str(_) => {},
        BValue::List(items) => {
            let out = normalize(v)->List_0;
            assert forall|i: int| 0 <= i < items.len() implies out[i] == items[i] by {
                lemma_normalize_identity(items[i]);
            }
            assert(out =~= items);
        },
        BValue::Dict(entries) => {
            lemma_normalize_entries_identity(entries, entries.len() as int);
            assert(entries.subrange(0, entries.len() as int) =~= entries);
        },
    }
}

/// The digits of a number are plain digits and denote the number.
pub proof fn lemma_dec_digits(n: nat)
    ensures
        plain_digits(dec_digits(n)),
        dec_value(dec_digits(n)) == n,
    decreases n,
{
    if n < 10 {
        let d = dec_digits(n);
        assert(d.drop_last() =~= Seq::<u8>::empty());
        assert(dec_value(d.drop_last()) == 0);
    } else {
        lemma_dec_digits(n / 10);
        let d = dec_digits(n);
        assert(d.drop_last() =~= dec_digits(n / 10));
        assert(d[0] == dec_digits(n / 10)[0]);
        if dec_digits(n / 10).len() == 1 {
            let one = dec_digits(n / 10);
            assert(one.drop_last() =~= Seq::<u8>::empty());
            assert(dec_value(one.drop_last()) == 0);
        }
    }
}

proof fn lemma_dec_value_positive(d: Seq<u8>)
    requires
        d.len() >= 1,
        forall|i: int| 0 <= i < d.len() ==> is_digit(d[i]),
        d[0] != 0x30,
    ensures
        dec_value(d) >= 1,
        d.len() > 1 ==> dec_value(d) >= 10,
    decreases d.len(),
{
    if d.len() > 1 {
        lemma_dec_value_positive(d.drop_last());
    } else {
        assert(d.drop_last() =~= Seq::<u8>::empty());
        assert(dec_value(d.drop_last()) == 0);
    }
}

proof fn lemma_dec_value_digits(d: Seq<u8>)
    requires
        plain_digits(d),
    ensures
        dec_digits(dec_value(d)) == d,
    decreases d.len(),
{
    if d.len() == 1 {
        assert(d.drop_last() =~= Seq::<u8>::empty());
        assert(dec_value(d.drop_last()) == 0);
        assert(dec_digits(dec_value(d)) =~= d);
    } else {
        let front = d.drop_last();
        lemma_dec_value_positive(front);
        lemma_dec_value_digits(front);
        let v = dec_value(d);
        assert(v == dec_value(front) * 10 + (d.last() - 0x30));
        assert(v / 10 == dec_value(front));
        assert(v % 10 == d.last() - 0x30);
        assert(dec_digits(v) =~= d);
    }
}


proof fn lemma_items_shift(v: BValue, rest: Seq<BValue>, k: int)
    requires
        0 <= k,
    ensures
        encode_items_spec(seq![v] + rest, k + 1) == encode_items_spec(rest, k),
    decreases rest.len() - k,
{
    let all = seq![v] + rest;
    if k < rest.len() {
        assert(all[k + 1] == rest[k]);
        lemma_items_shift(v, rest, k + 1);
    }
}

proof fn lemma_entries_shift(e: (Seq<u8>, BValue), rest: Seq<(Seq<u8>, BValue)>, k: int)
    requires
        0 <= k,
    ensures
        encode_entries_spec(seq![e] + rest, k + 1) == encode_entries_spec(rest, k),
    decreases rest.len() - k,
{
    let all = seq![e] + rest;
    if k < rest.len() {
        assert(all[k + 1] == rest[k]);
        lemma_entries_shift(e, rest, k + 1);
    }
}

proof fn lemma_parsed_str(b: Seq<u8>, i: int)
    requires
        0 <= i < b.len(),
        is_digit(b[i]),
        parse_str(b, i) is Ok,
    ensures
        encode_str_spec(parse_str(b, i)->Ok_0.0) == b.subrange(i, parse_str(b, i)->Ok_0.1),
{
    let (s, end) = parse_str(b, i)->Ok_0;
    let mid = digits_end(b, i);
    lemma_digits_end(b, i);
    let digits = b.subrange(i, mid);
    assert(plain_digits(digits));
    lemma_dec_value_digits(digits);
    assert(encode_str_spec(s) =~= b.subrange(i, end));
}

proof fn lemma_parsed_int(b: Seq<u8>, i: int)
    requires
        0 <= i < b.len(),
        b[i] == 0x69,
        parse_int(b, i) is Ok,
    ensures
        encode_spec(parse_int(b, i)->Ok_0.0) == b.subrange(i, parse_int(b, i)->Ok_0.1),
{
    let (v, end) = parse_int(b, i)->Ok_0;
    let negative = i + 1 < b.len() && b[i + 1] == 0x2d;
    let start = if negative {
        i + 2
    } else {
        i + 1
    };
    lemma_digits_end(b, start);
    let stop = digits_end(b, start);
    let digits = b.subrange(start, stop);
    assert(plain_digits(digits));
    lemma_dec_value_digits(digits);
    if negative {
        lemma_dec_value_positive(digits);
    }
    assert(encode_spec(v) =~= b.subrange(i, end));
}

proof fn lemma_parsed_items(b: Seq<u8>, j: int)
    requires
        0 <= j,
        parse_items(b, j) is Ok,
    ensures
        encode_items_spec(parse_items(b, j)->Ok_0.0, 0).push(0x65u8) == b.subrange(
            j,
            parse_items(b, j)->Ok_0.1,
        ),
    decreases b.len() - j, 1int,
{
    lemma_parse_bounds(b, j);
    if b[j] == 0x65 {
        assert(Seq::<u8>::empty().push(0x65u8) =~= b.subrange(j, j + 1));
    } else {
        let (v, k) = parse_value(b, j)->Ok_0;
        let (rest, end) = parse_items(b, k)->Ok_0;
        lemma_parsed_is_encoding(b, j);
        lemma_parsed_items(b, k);
        lemma_parse_bounds(b, k);
        lemma_items_shift(v, rest, 0);
        let all = seq![v] + rest;
        assert(all[0] == v);
        assert(encode_items_spec(all, 0) == encode_spec(v) + encode_items_spec(rest, 0));
        assert(encode_items_spec(all, 0).push(0x65u8) =~= b.subrange(j, k) + b.subrange(k, end));
        assert(b.subrange(j, k) + b.subrange(k, end) =~= b.subrange(j, end));
    }
}

proof fn lemma_parsed_entries(b: Seq<u8>, j: int)
    requires
        0 <= j,
        parse_entries(b, j) is Ok,
    ensures
        encode_entries_spec(parse_entries(b, j)->Ok_0.0, 0).push(0x65u8) == b.subrange(
            j,
            parse_entries(b, j)->Ok_0.1,
        ),
    decreases b.len() - j, 1int,
{
    lemma_parse_bounds(b, j);
    if b[j] == 0x65 {
        assert(Seq::<u8>::empty().push(0x65u8) =~= b.subrange(j, j + 1));
    } else {
        let (key, k) = parse_str(b, j)->Ok_0;
        let (v, m) = parse_value(b, k)->Ok_0;
        let (rest, end) = parse_entries(b, m)->Ok_0;
        lemma_parsed_str(b, j);
        lemma_parse_bounds(b, k);
        lemma_parsed_is_encoding(b, k);
        lemma_parsed_entries(b, m);
        lemma_parse_bounds(b, m);
        let e = (key, v);
        lemma_entries_shift(e, rest, 0);
        let all = seq![e] + rest;
        assert(all[0] == e);
        assert(encode_entries_spec(all, 0) == encode_str_spec(key) + encode_spec(v)
            + encode_entries_spec(rest, 0));
        assert(encode_entries_spec(all, 0).push(0x65u8) =~= b.subrange(j, k) + b.subrange(k, m)
            + b.subrange(m, end));
        assert(b.subrange(j, k) + b.subrange(k, m) + b.subrange(m, end) =~= b.subrange(j, end));
    }
}

/// Whatever parses is the encoding of what it parses to: the bytes that a
/// successful parse spans are the encoding of the value as written.
pub proof fn lemma_parsed_is_encoding(b: Seq<u8>, i: int)
    requires
        0 <= i,
        parse_value(b, i) is Ok,
    ensures
        encode_spec(parse_value(b, i)->Ok_0.0) == b.subrange(i, parse_value(b, i)->Ok_0.1),
    decreases b.len() - i, 0int,
{
    lemma_parse_bounds(b, i);
    if b[i] == 0x69 {
        lemma_parsed_int(b, i);
    } else if is_digit(b[i]) {
        lemma_parsed_str(b, i);
    } else if b[i] == 0x6c {
        lemma_parsed_items(b, i + 1);
        let (items, end) = parse_items(b, i + 1)->Ok_0;
        lemma_parse_bounds(b, i + 1);
        assert(seq![0x6cu8] + b.subrange(i + 1, end) =~= b.subrange(i, end));
        assert(seq![0x6cu8] + encode_items_spec(items, 0) + seq![0x65u8] =~= seq![0x6cu8]
            + encode_items_spec(items, 0).push(0x65u8));
    } else {
        lemma_parsed_entries(b, i + 1);
        let (entries, end) = parse_entries(b, i + 1)->Ok_0;
        lemma_parse_bounds(b, i + 1);
        assert(seq![0x64u8] + b.subrange(i + 1, end) =~= b.subrange(i, end));
        assert(seq![0x64u8] + encode_entries_spec(entries, 0) + seq![0x65u8] =~= seq![0x64u8]
            + encode_entries_spec(entries, 0).push(0x65u8));
    }
}

/// Decoding an input whose dictionaries are written with ascending keys and
/// encoding the result gives the input again.
pub proof fn lemma_decode_then_encode(b: Seq<u8>)
    requires
        parse_value(b, 0) matches Ok((v, end)) && end == b.len() && canonical(v),
    ensures
        decode_spec(b) matches Ok(v) && encode_spec(v) == b,
{
    let (v, end) = parse_value(b, 0)->Ok_0;
    lemma_parsed_is_encoding(b, 0);
    lemma_normalize_identity(v);
    assert(b.subrange(0, end) =~= b);
}


/// True when every integer inside the value fits in 64 signed bits.
pub open spec fn ints_fit(v: BValue) -> bool
    decreases v,
{
    match v {
        BValue::Int(n) => i64::MIN <= n <= i64::MAX,
        BValue::Str(_) => true,
        BValue::List(items) => forall|i: int| 0 <= i < items.len() ==> ints_fit(#[trigger] items[i]),
        BValue::Dict(entries) => forall|i: int|
            0 <= i < entries.len() ==> ints_fit((#[trigger] entries[i]).1),
    }
}

/// True when the bytes `e` stand in `b` from offset `i` on.
pub open spec fn placed(b: Seq<u8>, i: int, e: Seq<u8>) -> bool {
    0 <= i && i + e.len() <= b.len() && b.subrange(i, i + e.len()) == e
}

proof fn lemma_placed_parts(b: Seq<u8>, i: int, x: Seq<u8>, y: Seq<u8>)
    requires
        placed(b, i, x + y),
    ensures
        placed(b, i, x),
        placed(b, i + x.len(), y),
{
    let whole = b.subrange(i, i + (x + y).len());
    assert(b.subrange(i, i + x.len()) =~= whole.subrange(0, x.len() as int));
    assert(whole.subrange(0, x.len() as int) =~= x);
    assert(b.subrange(i + x.len(), i + x.len() + y.len()) =~= whole.subrange(
        x.len() as int,
        (x + y).len() as int,
    ));
    assert(whole.subrange(x.len() as int, (x + y).len() as int) =~= y);
}

proof fn lemma_placed_byte(b: Seq<u8>, i: int, e: Seq<u8>, k: int)
    requires
        placed(b, i, e),
        0 <= k < e.len(),
    ensures
        b[i + k] == e[k],
{
    assert(b.subrange(i, i + e.len())[k] == b[i + k]);
}

proof fn lemma_str_parses(s: Seq<u8>, b: Seq<u8>, i: int)
    requires
        placed(b, i, encode_str_spec(s)),
    ensures
        is_digit(b[i]),
        parse_str(b, i) == Ok::<(Seq<u8>, int), (DecodeReason, int)>(
            (s, i + encode_str_spec(s).len()),
        ),
{
    let digits = dec_digits(s.len());
    let m = digits.len() as int;
    lemma_dec_digits(s.len());
    let e = encode_str_spec(s);
    assert(e =~= digits + (seq![0x3au8] + s));
    lemma_placed_parts(b, i, digits, seq![0x3au8] + s);
    lemma_placed_parts(b, i + m, seq![0x3au8], s);
    lemma_placed_byte(b, i + m, seq![0x3au8], 0);
    assert forall|k: int| i <= k < i + m implies is_digit(b[k]) by {
        lemma_placed_byte(b, i, digits, k - i);
    }
    lemma_placed_byte(b, i, digits, 0);
    lemma_digits_end_unique(b, i, i + m);
}

proof fn lemma_int_parses(n: int, b: Seq<u8>, i: int)
    requires
        i64::MIN <= n <= i64::MAX,
        placed(b, i, encode_spec(BValue::Int(n))),
    ensures
        b[i] == 0x69,
        parse_int(b, i) == Ok::<(BValue, int), (DecodeReason, int)>(
            (BValue::Int(n), i + encode_spec(BValue::Int(n)).len()),
        ),
{
    let e = encode_spec(BValue::Int(n));
    let magnitude: nat = if n < 0 {
        (-n) as nat
    } else {
        n as nat
    };
    let digits = dec_digits(magnitude);
    let m = digits.len() as int;
    lemma_dec_digits(magnitude);
    lemma_placed_byte(b, i, e, 0);
    if n < 0 {
        assert(e =~= seq![0x69u8, 0x2du8] + (digits + seq![0x65u8]));
        lemma_placed_parts(b, i, seq![0x69u8, 0x2du8], digits + seq![0x65u8]);
        lemma_placed_byte(b, i, seq![0x69u8, 0x2du8], 1);
        lemma_placed_parts(b, i + 2, digits, seq![0x65u8]);
        lemma_placed_byte(b, i + 2 + m, seq![0x65u8], 0);
        assert forall|k: int| i + 2 <= k < i + 2 + m implies is_digit(b[k]) by {
            lemma_placed_byte(b, i + 2, digits, k - i - 2);
        }
        lemma_placed_byte(b, i + 2, digits, 0);
        lemma_digits_end_unique(b, i + 2, i + 2 + m);
        if digits[0] == 0x30 {
            assert(digits.len() == 1);
            assert(digits.drop_last() =~= Seq::<u8>::empty());
            assert(dec_value(digits.drop_last()) == 0);
        }
    } else {
        assert(e =~= seq![0x69u8] + (digits + seq![0x65u8]));
        lemma_placed_parts(b, i, seq![0x69u8], digits + seq![0x65u8]);
        lemma_placed_parts(b, i + 1, digits, seq![0x65u8]);
        lemma_placed_byte(b, i + 1 + m, seq![0x65u8], 0);
        assert forall|k: int| i + 1 <= k < i + 1 + m implies is_digit(b[k]) by {
            lemma_placed_byte(b, i + 1, digits, k - i - 1);
        }
        lemma_placed_byte(b, i + 1, digits, 0);
        lemma_digits_end_unique(b, i + 1, i + 1 + m);
    }
}

proof fn lemma_encoding_head(v: BValue)
    ensures
        encode_spec(v).len() >= 2,
        match v {
            BValue::Int(_) => encode_spec(v)[0] == 0x69,
            BValue::Str(_) => is_digit(encode_spec(v)[0]),
            BValue::List(_) => encode_spec(v)[0] == 0x6c,
            BValue::Dict(_) => encode_spec(v)[0] == 0x64,
        },
{
    match v {
        BValue::Str(s) => {
            lemma_dec_digits(s.len());
        },
        BValue::Int(n) => {
            if n < 0 {
                lemma_dec_digits((-n) as nat);
            } else {
                lemma_dec_digits(n as nat);
            }
        },
        _ => {},
    }
}

proof fn lemma_items_parse(items: Seq<BValue>, k: int, b: Seq<u8>, j: int)
    requires
        0 <= k <= items.len(),
        forall|i: int| 0 <= i < items.len() ==> ints_fit(#[trigger] items[i]),
        placed(b, j, encode_items_spec(items, k).push(0x65u8)),
    ensures
        parse_items(b, j) == Ok::<(Seq<BValue>, int), (DecodeReason, int)>(
            (items.subrange(k, items.len() as int), j + encode_items_spec(items, k).len() + 1),
        ),
    decreases items, items.len() - k,
{
    let tail = encode_items_spec(items, k).push(0x65u8);
    if k == items.len() {
        lemma_placed_byte(b, j, tail, 0);
        assert(items.subrange(k, items.len() as int) =~= Seq::<BValue>::empty());
    } else {
        let first = encode_spec(items[k]);
        let rest = encode_items_spec(items, k + 1).push(0x65u8);
        assert(tail =~= first + rest);
        lemma_placed_parts(b, j, first, rest);
        lemma_encoding_head(items[k]);
        lemma_placed_byte(b, j, first, 0);
        lemma_value_parses(items[k], b, j);
        lemma_items_parse(items, k + 1, b, j + first.len());
        assert(seq![items[k]] + items.subrange(k + 1, items.len() as int) =~= items.subrange(
            k,
            items.len() as int,
        ));
    }
}

proof fn lemma_entries_parse(entries: Seq<(Seq<u8>, BValue)>, k: int, b: Seq<u8>, j: int)
    requires
        0 <= k <= entries.len(),
        forall|i: int| 0 <= i < entries.len() ==> ints_fit((#[trigger] entries[i]).1),
        placed(b, j, encode_entries_spec(entries, k).push(0x65u8)),
    ensures
        parse_entries(b, j) == Ok::<(Seq<(Seq<u8>, BValue)>, int), (DecodeReason, int)>(
            (
                entries.subrange(k, entries.len() as int),
                j + encode_entries_spec(entries, k).len() + 1,
            ),
        ),
    decreases entries, entries.len() - k,
{
    let tail = encode_entries_spec(entries, k).push(0x65u8);
    if k == entries.len() {
        lemma_placed_byte(b, j, tail, 0);
        assert(entries.subrange(k, entries.len() as int) =~= Seq::<(Seq<u8>, BValue)>::empty());
    } else {
        let key = encode_str_spec(entries[k].0);
        let value = encode_spec(entries[k].1);
        let rest = encode_entries_spec(entries, k + 1).push(0x65u8);
        assert(tail =~= key + (value + rest));
        lemma_placed_parts(b, j, key, value + rest);
        lemma_placed_parts(b, j + key.len(), value, rest);
        lemma_str_parses(entries[k].0, b, j);
        lemma_encoding_head(entries[k].1);
        lemma_value_parses(entries[k].1, b, j + key.len());
        lemma_entries_parse(entries, k + 1, b, j + key.len() + value.len());
        assert(seq![entries[k]] + entries.subrange(k + 1, entries.len() as int)
            =~= entries.subrange(k, entries.len() as int));
    }
}

/// Where the encoding of a value stands in an input, parsing from its first
/// byte gives the value and ends just past its last byte.
pub proof fn lemma_value_parses(v: BValue, b: Seq<u8>, i: int)
    requires
        ints_fit(v),
        placed(b, i, encode_spec(v)),
    ensures
        parse_value(b, i) == Ok::<(BValue, int), (DecodeReason, int)>(
            (v, i + encode_spec(v).len()),
        ),
    decreases v, 0int,
{
    lemma_encoding_head(v);
    lemma_placed_byte(b, i, encode_spec(v), 0);
    match v {
        BValue::Int(n) => {
            lemma_int_parses(n, b, i);
        },
        BValue::Str(s) => {
            lemma_str_parses(s, b, i);
        },
        BValue::List(items) => {
            let inner = encode_items_spec(items, 0).push(0x65u8);
            assert(encode_spec(v) =~= seq![0x6cu8] + inner);
            lemma_placed_parts(b, i, seq![0x6cu8], inner);
            lemma_items_parse(items, 0, b, i + 1);
            assert(items.subrange(0, items.len() as int) =~= items);
        },
        BValue::Dict(entries) => {
            let inner = encode_entries_spec(entries, 0).push(0x65u8);
            assert(encode_spec(v) =~= seq![0x64u8] + inner);
            lemma_placed_parts(b, i, seq![0x64u8], inner);
            lemma_entries_parse(entries, 0, b, i + 1);
            assert(entries.subrange(0, entries.len() as int) =~= entries);
        },
    }
}

proof fn lemma_view_fits(v: BEncoding)
    ensures
        ints_fit(v@),
    decreases v,
{
    match v {
        BEncoding::List(items) => {
            let out = v@->List_0;
            assert forall|i: int| 0 <= i < out.len() implies ints_fit(#[trigger] out[i]) by {
                lemma_view_fits(items@[i]);
            }
        },
        BEncoding::Dict(entries) => {
            let out = v@->Dict_0;
            assert forall|i: int| 0 <= i < out.len() implies ints_fit((#[trigger] out[i]).1) by {
                lemma_view_fits(entries@[i].value);
            }
        },
        _ => {},
    }
}

/// Encoding a well-formed value and decoding the bytes gives the value again.
pub proof fn lemma_encode_then_decode(v: BEncoding)
    requires
        v.wf(),
    ensures
        decode_spec(encode_spec(v@)) == Ok::<BValue, (DecodeReason, int)>(v@),
{
    let b = encode_spec(v@);
    lemma_view_fits(v);
    assert(b.subrange(0, b.len() as int) =~= b);
    lemma_value_parses(v@, b, 0);
    lemma_normalize_identity(v@);
}


/// The key whose value a display leaves out: `pieces`.
pub open spec fn pieces_key() -> Seq<u8> {
    seq![0x70u8, 0x69u8, 0x65u8, 0x63u8, 0x65u8, 0x73u8]
}

/// The displays of the items `from ..`, separated by a comma and a space.
pub open spec fn display_items(items: Seq<BValue>, from: int) -> Seq<char>
    decreases items, items.len() - from,
{
    if 0 <= from < items.len() {
        (if from > 0 {
            ", "@
        } else {
            Seq::empty()
        }) + display_spec(items[from]) + display_items(items, from + 1)
    } else {
        Seq::empty()
    }
}

/// The displays of the entries `from ..`: the key, ` : ` and the value, or
/// `REDACTED` in place of the value of the key `pieces`.
pub open spec fn display_entries(entries: Seq<(Seq<u8>, BValue)>, from: int) -> Seq<char>
    decreases entries, entries.len() - from,
{
    if 0 <= from < entries.len() {
        (if from > 0 {
            ", "@
        } else {
            Seq::empty()
        }) + lossy_text(entries[from].0) + " : "@ + (if entries[from].0 == pieces_key() {
            "REDACTED"@
        } else {
            display_spec(entries[from].1)
        }) + display_entries(entries, from + 1)
    } else {
        Seq::empty()
    }
}

/// The text that shows a value: an integer in decimal, a byte string as
/// lossily decoded text, a list in square brackets, a dictionary in braces.
pub open spec fn display_spec(v: BValue) -> Seq<char>
    decreases v, 0int,
{
    match v {
        BValue::Int(n) => ascii_chars(int_digits(n)),
        BValue::Str(s) => lossy_text(s),
        BValue::List(items) => "["@ + display_items(items, 0) + "]"@,
        BValue::Dict(entries) => "{"@ + display_entries(entries, 0) + "}"@,
    }
}

impl BEncoding {
    /// Shows the value as text. The value of the key `pieces`, which is long
    /// and binary, is shown as `REDACTED`.
    pub fn to_text(&self) -> (text: String)
        ensures
            text@ == display_spec(self@),
        decreases self,
    {
        match self {
            BEncoding::Int(value) => {
                let digits = encode_int(*value);
                let mut inner: Vec<u8> = Vec::new();
                let mut i: usize = 1;
                proof {
                    if *value < 0 {
                        lemma_dec_digits((-*value) as nat);
                    } else {
                        lemma_dec_digits(*value as nat);
                    }
                    assert(digits@ =~= seq![0x69u8] + int_digits(*value as int) + seq![0x65u8]);
                }
                let n: usize = digits.len();
                while i + 1 < n
                    invariant
                        n == digits@.len(),
                        1 <= i < digits@.len(),
                        inner@ == digits@.subrange(1, i as int),
                    decreases digits@.len() - i,
                {
                    inner.push(digits[i]);
                    i += 1;
                    assert(inner@ =~= digits@.subrange(1, i as int));
                }
                assert(inner@ =~= int_digits(*value as int));
                assert(all_ascii(inner@));
                lossy_string(&inner)
            },
            BEncoding::Str(value) => lossy_string(value),
            BEncoding::List(list) => {
                let ghost items = items_view(*list);
                let mut out = String::from_str("[");
                let mut i: usize = 0;
                while i < list.len()
                    invariant
                        i <= list@.len(),
                        self matches BEncoding::List(l) && l == list,
                        items == items_view(*list),
                        out@ + display_items(items, i as int) == "["@ + display_items(items, 0),
                    decreases list@.len() - i,
                {
                    let ghost before = out@;
                    if i > 0 {
                        out.append(", ");
                    }
                    let part = list[i].to_text();
                    out.append(part.as_str());
                    i += 1;
                    assert(before + display_items(items, i - 1) =~= out@ + display_items(
                        items,
                        i as int,
                    ));
                }
                let ghost before = out@;
                out.append("]");
                assert(out@ =~= before + display_items(items, i as int) + "]"@);
                out
            },
            BEncoding::Dict(map) => {
                let ghost entries = entries_view(*map);
                let redacted: [u8; 6] = [0x70u8, 0x69u8, 0x65u8, 0x63u8, 0x65u8, 0x73u8];
                assert(redacted@ =~= pieces_key());
                let mut out = String::from_str("{");
                let mut i: usize = 0;
                while i < map.len()
                    invariant
                        i <= map@.len(),
                        self matches BEncoding::Dict(m) && m == map,
                        entries == entries_view(*map),
                        redacted@ == pieces_key(),
                        out@ + display_entries(entries, i as int) == "{"@ + display_entries(
                            entries,
                            0,
                        ),
                    decreases map@.len() - i,
                {
                    let ghost before = out@;
                    if i > 0 {
                        out.append(", ");
                    }
                    let key = lossy_string(&map[i].key);
                    out.append(key.as_str());
                    out.append(" : ");
                    if bytes_equal(map[i].key.as_slice(), redacted.as_slice()) {
                        out.append("REDACTED");
                    } else {
                        let part = map[i].value.to_text();
                        out.append(part.as_str());
                    }
                    i += 1;
                    assert(before + display_entries(entries, i - 1) =~= out@ + display_entries(
                        entries,
                        i as int,
                    ));
                }
                let ghost before = out@;
                out.append("}");
                assert(out@ =~= before + display_entries(entries, i as int) + "}"@);
                out
            },
        }
    }
}

/// The message of a typed-read failure.
pub open spec fn error_text(e: BEncodingParseError) -> Seq<char> {
    match e {
        BEncodingParseError::NotADict => "not a dict!"@,
        BEncodingParseError::NotAList => "not a list!"@,
        BEncodingParseError::NotAInt => "not an int!"@,
        BEncodingParseError::NotAStr => "not a str!"@,
        BEncodingParseError::NotUtf8 => "not valid utf-8!"@,
        BEncodingParseError::MissingKey(key) => "missing key `"@ + key@ + "`"@,
    }
}

impl BEncodingParseError {
    /// The message of the failure.
    pub fn to_text(&self) -> (text: String)
        ensures
            text@ == error_text(*self),
    {
        match self {
            BEncodingParseError::NotADict => String::from_str("not a dict!"),
            BEncodingParseError::NotAList => String::from_str("not a list!"),
            BEncodingParseError::NotAInt => String::from_str("not an int!"),
            BEncodingParseError::NotAStr => String::from_str("not a str!"),
            BEncodingParseError::NotUtf8 => String::from_str("not valid utf-8!"),
            BEncodingParseError::MissingKey(key) => {
                let mut out = String::from_str("missing key `");
                out.append(key.as_str());
                out.append("`");
                out
            },
        }
    }
}

} // verus!
