use vstd::prelude::*;
use vstd::string::*;

verus! {

// ---------------------------------------------------------------------------
// Tokens
// ---------------------------------------------------------------------------

/// A byte string token with the byte range it occupies in its input.
#[derive(Debug, Clone, PartialEq, Eq, Hash)]
pub struct BencodeString {
    pub value: Vec<u8>,
    pub start_position: usize,
    pub continuation_position: usize,
}

/// A signed integer token with the byte range it occupies in its input.
#[derive(Debug, Clone, PartialEq, Eq, Hash)]
pub struct BencodeInteger {
    pub value: i128,
    pub start_position: usize,
    pub continuation_position: usize,
}

/// An ordered list token with the byte range it occupies in its input.
#[derive(Debug, PartialEq, Eq)]
pub struct BencodeList {
    pub value: Vec<BencodeToken>,
    pub start_position: usize,
    pub continuation_position: usize,
}

/// A dictionary token: `keys[i]` maps to `values[i]`.
#[derive(Debug, PartialEq, Eq)]
pub struct BencodeDictionary {
    pub keys: Vec<BencodeString>,
    pub values: Vec<BencodeToken>,
    pub start_position: usize,
    pub continuation_position: usize,
}

#[derive(Debug, PartialEq, Eq)]
pub enum BencodeToken {
    String(BencodeString),
    List(BencodeList),
    Integer(BencodeInteger),
    Dictionary(BencodeDictionary),
}

#[derive(Debug)]
pub enum BencodeErrorKind {
    MalformedData,
}

#[derive(Debug)]
pub struct BencodeError {
    pub kind: BencodeErrorKind,
    pub message: String,
}

impl BencodeError {
    pub fn new(kind: BencodeErrorKind, message: String) -> (r: BencodeError)
        ensures
            r.kind == kind,
            r.message@ == message@,
    {
        BencodeError { kind, message }
    }
}

// ---------------------------------------------------------------------------
// Mathematical model of tokens
// ---------------------------------------------------------------------------

/// A decoded byte string and its range `[start, end)` in the input.
pub struct StrModel {
    pub value: Seq<u8>,
    pub start: int,
    pub end: int,
}

pub enum TokenModel {
    Str(StrModel),
    Int { value: int, start: int, end: int },
    List { items: Seq<TokenModel>, start: int, end: int },
    Dict { keys: Seq<StrModel>, values: Seq<TokenModel>, start: int, end: int },
}

impl TokenModel {
    pub open spec fn start(self) -> int {
        match self {
            TokenModel::Str(s) => s.start,
            TokenModel::Int { start, .. } => start,
            TokenModel::List { start, .. } => start,
            TokenModel::Dict { start, .. } => start,
        }
    }

    pub open spec fn end(self) -> int {
        match self {
            TokenModel::Str(s) => s.end,
            TokenModel::Int { end, .. } => end,
            TokenModel::List { end, .. } => end,
            TokenModel::Dict { end, .. } => end,
        }
    }
}

impl View for BencodeString {
    type V = StrModel;

    open spec fn view(&self) -> StrModel {
        StrModel {
            value: self.value@,
            start: self.start_position as int,
            end: self.continuation_position as int,
        }
    }
}

impl View for BencodeToken {
    type V = TokenModel;

    open spec fn view(&self) -> TokenModel
        decreases self,
    {
        match self {
            BencodeToken::String(s) => TokenModel::Str(s@),
            BencodeToken::Integer(i) => TokenModel::Int {
                value: i.value as int,
                start: i.start_position as int,
                end: i.continuation_position as int,
            },
            BencodeToken::List(l) => TokenModel::List {
                items: Seq::new(
                    l.value.len() as nat,
                    |i: int|
                        if 0 <= i < l.value.len() {
                            l.value[i].view()
                        } else {
                            TokenModel::Int { value: 0, start: 0, end: 0 }
                        },
                ),
                start: l.start_position as int,
                end: l.continuation_position as int,
            },
            BencodeToken::Dictionary(d) => TokenModel::Dict {
                keys: d.keys@.map_values(|k: BencodeString| k@),
                values: Seq::new(
                    d.values.len() as nat,
                    |i: int|
                        if 0 <= i < d.values.len() {
                            d.values[i].view()
                        } else {
                            TokenModel::Int { value: 0, start: 0, end: 0 }
                        },
                ),
                start: d.start_position as int,
                end: d.continuation_position as int,
            },
        }
    }
}

impl View for BencodeList {
    type V = TokenModel;

    open spec fn view(&self) -> TokenModel {
        BencodeToken::List(*self)@
    }
}

impl View for BencodeDictionary {
    type V = TokenModel;

    open spec fn view(&self) -> TokenModel {
        BencodeToken::Dictionary(*self)@
    }
}

impl View for BencodeInteger {
    type V = TokenModel;

    open spec fn view(&self) -> TokenModel {
        BencodeToken::Integer(*self)@
    }
}

// ---------------------------------------------------------------------------
// The grammar, as a parser on byte sequences
// ---------------------------------------------------------------------------

pub open spec fn is_digit(c: u8) -> bool {
    48 <= c <= 57
}

/// The first position at or after `pos` that does not hold a decimal digit.
pub open spec fn digits_end(b: Seq<u8>, pos: int) -> int
    decreases b.len() - pos,
{
    if 0 <= pos < b.len() && is_digit(b[pos]) {
        digits_end(b, pos + 1)
    } else {
        pos
    }
}

/// The value of the decimal digits `b[from..to]`.
pub open spec fn decimal(b: Seq<u8>, from: int, to: int) -> int
    decreases to - from,
{
    if to <= from {
        0
    } else {
        decimal(b, from, to - 1) * 10 + (b[to - 1] - 48)
    }
}

/// Strict byte-lexicographic order, comparing from index `i` on.
pub open spec fn bytes_lt_from(a: Seq<u8>, b: Seq<u8>, i: int) -> bool
    decreases a.len() - i,
{
    if i >= a.len() {
        i < b.len()
    } else if i >= b.len() {
        false
    } else if a[i] != b[i] {
        a[i] < b[i]
    } else {
        bytes_lt_from(a, b, i + 1)
    }
}

/// Strict byte-lexicographic order.
pub open spec fn bytes_lt(a: Seq<u8>, b: Seq<u8>) -> bool {
    bytes_lt_from(a, b, 0)
}

/// `<length>:<bytes>` at `pos`: no leading zero, a length that fits a `usize`.
pub open spec fn parse_string(b: Seq<u8>, pos: int) -> Option<StrModel> {
    let e = digits_end(b, pos);
    let n = decimal(b, pos, e);
    if 0 <= pos && pos < e && e < b.len() && b[e] == 58 && (b[pos] == 48 ==> e == pos + 1)
        && n <= usize::MAX && e + 1 + n <= b.len() {
        Some(StrModel { value: b.subrange(e + 1, e + 1 + n), start: pos, end: e + 1 + n })
    } else {
        None
    }
}

/// `i<optional '-'><digits>e` at `pos`: no leading zero, no negative zero, a value that
/// fits an `i128`.
pub open spec fn parse_integer(b: Seq<u8>, pos: int) -> Option<TokenModel> {
    let neg = pos + 1 < b.len() && b[pos + 1] == 45;
    let d = if neg { pos + 2 } else { pos + 1 };
    let e = digits_end(b, d);
    let m = decimal(b, d, e);
    let v = if neg { -m } else { m };
    if 0 <= pos < b.len() && b[pos] == 105 && d < e && e < b.len() && b[e] == 101
        && (b[d] == 48 ==> (e == d + 1 && !neg)) && i128::MIN <= v <= i128::MAX {
        Some(TokenModel::Int { value: v, start: pos, end: e + 1 })
    } else {
        None
    }
}

/// Prepends `s` to the items of a parse result.
pub open spec fn prepend<T>(s: Seq<T>, r: Option<(Seq<T>, int)>) -> Option<(Seq<T>, int)> {
    match r {
        Some((rest, e)) => Some((s + rest, e)),
        None => None,
    }
}

/// The entries of a list from `pos` up to and including its closing `e`; the position
/// after it.
pub open spec fn parse_items(b: Seq<u8>, pos: int) -> Option<(Seq<TokenModel>, int)>
    decreases b.len() - pos, 1int,
{
    if pos < 0 || pos >= b.len() {
        None
    } else if b[pos] == 101 {
        Some((Seq::empty(), pos + 1))
    } else {
        match parse_token(b, pos) {
            Some(t) => if pos < t.end() <= b.len() {
                prepend(seq![t], parse_items(b, t.end()))
            } else {
                None
            },
            None => None,
        }
    }
}

/// The key/value pairs of a dictionary from `pos` up to and including its closing `e`,
/// each key strictly above `prev` and the key before it; the position after it.
pub open spec fn parse_entries(b: Seq<u8>, pos: int, prev: Option<Seq<u8>>) -> Option<
    (Seq<StrModel>, Seq<TokenModel>, int),
>
    decreases b.len() - pos, 1int,
{
    if pos < 0 || pos >= b.len() {
        None
    } else if b[pos] == 101 {
        Some((Seq::empty(), Seq::empty(), pos + 1))
    } else {
        match parse_string(b, pos) {
            Some(k) => if (prev matches Some(p) ==> bytes_lt(p, k.value)) && pos < k.end
                <= b.len() {
                match parse_token(b, k.end) {
                    Some(v) => if k.end < v.end() <= b.len() {
                        match parse_entries(b, v.end(), Some(k.value)) {
                            Some((ks, vs, e)) => Some((seq![k] + ks, seq![v] + vs, e)),
                            None => None,
                        }
                    } else {
                        None
                    },
                    None => None,
                }
            } else {
                None
            },
            None => None,
        }
    }
}

/// The token that starts at `pos`.
pub open spec fn parse_token(b: Seq<u8>, pos: int) -> Option<TokenModel>
    decreases b.len() - pos, 0int,
{
    if pos < 0 || pos >= b.len() {
        None
    } else if is_digit(b[pos]) {
        match parse_string(b, pos) {
            Some(s) => Some(TokenModel::Str(s)),
            None => None,
        }
    } else if b[pos] == 105 {
        parse_integer(b, pos)
    } else if b[pos] == 108 {
        match parse_items(b, pos + 1) {
            Some((items, e)) => Some(TokenModel::List { items, start: pos, end: e }),
            None => None,
        }
    } else if b[pos] == 100 {
        match parse_entries(b, pos + 1, None) {
            Some((keys, values, e)) => Some(TokenModel::Dict { keys, values, start: pos, end: e }),
            None => None,
        }
    } else {
        None
    }
}

/// The whole input as one token, with no bytes after it.
pub open spec fn spec_decode(b: Seq<u8>) -> Option<TokenModel> {
    match parse_token(b, 0) {
        Some(t) => if t.end() == b.len() {
            Some(t)
        } else {
            None
        },
        None => None,
    }
}

} // verus!

verus! {

// ---------------------------------------------------------------------------
// Lemmas on the grammar
// ---------------------------------------------------------------------------

proof fn lemma_digits_end(b: Seq<u8>, pos: int)
    requires
        0 <= pos,
    ensures
        pos <= digits_end(b, pos),
        digits_end(b, pos) <= b.len() || digits_end(b, pos) == pos,
        forall|i: int| pos <= i < digits_end(b, pos) ==> is_digit(#[trigger] b[i]),
        digits_end(b, pos) < b.len() ==> !is_digit(b[digits_end(b, pos)]),
    decreases b.len() - pos,
{
    if 0 <= pos < b.len() && is_digit(b[pos]) {
        lemma_digits_end(b, pos + 1);
    }
}

proof fn lemma_decimal_monotone(b: Seq<u8>, from: int, k: int, j: int)
    requires
        from <= k <= j,
        forall|i: int| from <= i < j ==> is_digit(#[trigger] b[i]),
    ensures
        0 <= decimal(b, from, k) <= decimal(b, from, j),
    decreases j - from,
{
    if j > from {
        if k < j {
            lemma_decimal_monotone(b, from, k, j - 1);
        } else {
            lemma_decimal_monotone(b, from, k - 1, j - 1);
        }
    }
}

proof fn lemma_prepend_push<T>(items: Seq<T>, t: T, x: Option<(Seq<T>, int)>)
    ensures
        prepend(items, prepend(seq![t], x)) == prepend(items.push(t), x),
{
    if let Some((rest, e)) = x {
        assert(items + (seq![t] + rest) =~= items.push(t) + rest);
    }
}

/// Prepends keys and values to the entries of a dictionary parse result.
pub open spec fn prepend_entries(
    ks: Seq<StrModel>,
    vs: Seq<TokenModel>,
    r: Option<(Seq<StrModel>, Seq<TokenModel>, int)>,
) -> Option<(Seq<StrModel>, Seq<TokenModel>, int)> {
    match r {
        Some((ks2, vs2, e)) => Some((ks + ks2, vs + vs2, e)),
        None => None,
    }
}

proof fn lemma_prepend_entries_push(
    ks: Seq<StrModel>,
    vs: Seq<TokenModel>,
    k: StrModel,
    v: TokenModel,
    x: Option<(Seq<StrModel>, Seq<TokenModel>, int)>,
)
    ensures
        prepend_entries(ks, vs, prepend_entries(seq![k], seq![v], x)) == prepend_entries(
            ks.push(k),
            vs.push(v),
            x,
        ),
{
    if let Some((ks2, vs2, e)) = x {
        assert(ks + (seq![k] + ks2) =~= ks.push(k) + ks2);
        assert(vs + (seq![v] + vs2) =~= vs.push(v) + vs2);
    }
}

// ---------------------------------------------------------------------------
// Byte helpers
// ---------------------------------------------------------------------------

pub fn is_digit_byte(c: u8) -> (r: bool)
    ensures
        r == is_digit(c),
{
    48 <= c && c <= 57
}

/// Whether `a` is strictly below `b` in byte-lexicographic order.
pub fn bytes_less(a: &[u8], b: &[u8]) -> (r: bool)
    ensures
        r == bytes_lt(a@, b@),
{
    let mut i: usize = 0;
    while i < a.len() && i < b.len() && a[i] == b[i]
        invariant
            i <= a.len(),
            i <= b.len(),
            bytes_lt_from(a@, b@, 0) == bytes_lt_from(a@, b@, i as int),
        decreases a.len() - i,
    {
        i = i + 1;
    }
    if i >= a.len() {
        i < b.len()
    } else if i >= b.len() {
        false
    } else {
        a[i] < b[i]
    }
}

/// A copy of `v`.
pub fn copy_bytes(v: &Vec<u8>) -> (r: Vec<u8>)
    ensures
        r@ == v@,
{
    let mut r: Vec<u8> = Vec::new();
    let mut i: usize = 0;
    while i < v.len()
        invariant
            i <= v@.len(),
            r@ == v@.subrange(0, i as int),
        decreases v.len() - i,
    {
        r.push(v[i]);
        proof {
            assert(r@ =~= v@.subrange(0, i + 1));
        }
        i = i + 1;
    }
    proof {
        assert(v@.subrange(0, v@.len() as int) =~= v@);
    }
    r
}

/// Whether `a` and `b` hold the same bytes.
pub fn bytes_equal(a: &[u8], b: &[u8]) -> (r: bool)
    ensures
        r == (a@ == b@),
{
    if a.len() != b.len() {
        return false;
    }
    let mut i: usize = 0;
    while i < a.len()
        invariant
            i <= a.len(),
            a.len() == b.len(),
            forall|j: int| 0 <= j < i ==> a@[j] == b@[j],
        decreases a.len() - i,
    {
        if a[i] != b[i] {
            return false;
        }
        i = i + 1;
    }
    assert(a@ =~= b@);
    true
}

fn malformed(text: &str) -> (r: BencodeError)
    ensures
        r.kind == BencodeErrorKind::MalformedData,
{
    BencodeError::new(BencodeErrorKind::MalformedData, String::from_str(text))
}

// ---------------------------------------------------------------------------
// The decoder
// ---------------------------------------------------------------------------

pub struct Parser;

impl Parser {
    /// Decodes `bytes` as exactly one token.
    pub fn decode(bytes: &[u8]) -> (r: Result<BencodeToken, BencodeError>)
        ensures
            match r {
                Ok(t) => spec_decode(bytes@) == Some(t@),
                Err(_) => spec_decode(bytes@) is None,
            },
    {
        let token = Parser::decode_any(bytes, 0)?;
        let continuation_position = Parser::get_continuation_position(&token);
        if continuation_position < bytes.len() {
            Err(malformed("parsing completed, but extra data was found"))
        } else {
            Ok(token)
        }
    }

    pub fn decode_any(bytes: &[u8], start_position: usize) -> (r: Result<BencodeToken, BencodeError>)
        ensures
            match r {
                Ok(t) => parse_token(bytes@, start_position as int) == Some(t@)
                    && start_position < t@.end() <= bytes@.len(),
                Err(_) => parse_token(bytes@, start_position as int) is None,
            },
        decreases bytes@.len() - start_position, 1int,
    {
        if start_position >= bytes.len() {
            return Err(malformed("unexpected end of input"));
        }
        let byte = bytes[start_position];
        if is_digit_byte(byte) {
            let s = Parser::decode_string(bytes, start_position)?;
            Ok(BencodeToken::String(s))
        } else if byte == 105 {
            let i = Parser::decode_integer(bytes, start_position)?;
            Ok(BencodeToken::Integer(i))
        } else if byte == 108 {
            let l = Parser::decode_list(bytes, start_position)?;
            Ok(BencodeToken::List(l))
        } else if byte == 100 {
            let d = Parser::decode_dictionary(bytes, start_position)?;
            Ok(BencodeToken::Dictionary(d))
        } else {
            Err(malformed("unexpected character at the start of a token"))
        }
    }

    pub fn decode_string(bytes: &[u8], start_position: usize) -> (r: Result<BencodeString, BencodeError>)
        ensures
            match r {
                Ok(s) => parse_string(bytes@, start_position as int) == Some(s@)
                    && start_position < s.continuation_position <= bytes@.len(),
                Err(_) => parse_string(bytes@, start_position as int) is None,
            },
    {
        let ghost b = bytes@;
        let ghost start = start_position as int;
        if start_position >= bytes.len() {
            return Err(malformed("unexpected end of input"));
        }
        proof {
            lemma_digits_end(b, start);
        }
        let first = bytes[start_position];
        if !is_digit_byte(first) {
            return Err(malformed("expected a digit at the start of a string"));
        }
        let mut position = start_position;
        let mut length: usize = 0;
        while position < bytes.len() && is_digit_byte(bytes[position])
            invariant
                start <= position <= b.len(),
                b == bytes@,
                start == start_position,
                b[start] == first,
                position > start ==> (first != 48 || position == start + 1),
                forall|i: int| start <= i < position ==> is_digit(#[trigger] b[i]),
                digits_end(b, start) == digits_end(b, position as int),
                length == decimal(b, start, position as int),
            decreases bytes.len() - position,
        {
            proof {
                lemma_digits_end(b, position + 1);
                assert(digits_end(b, position as int) == digits_end(b, position + 1));
            }
            if position > start_position && first == 48 {
                assert(digits_end(b, start) >= position + 1);
                assert(b[start] == 48);
                return Err(malformed("leading zero in a string length"));
            }
            let digit = (bytes[position] - 48) as usize;
            let next = match length.checked_mul(10) {
                Some(m) => m.checked_add(digit),
                None => None,
            };
            match next {
                Some(n) => {
                    length = n;
                }
                None => {
                    proof {
                        lemma_decimal_monotone(b, start, position + 1, digits_end(b, start));
                    }
                    return Err(malformed("string length overflows"));
                }
            }
            position = position + 1;
        }
        proof {
            lemma_digits_end(b, position as int);
        }
        if position >= bytes.len() || bytes[position] != 58 {
            return Err(malformed("expected ':' after a string length"));
        }
        if length > bytes.len() - position - 1 {
            return Err(malformed("unexpected end of input in a string"));
        }
        let begin = position + 1;
        let end = begin + length;
        let mut value: Vec<u8> = Vec::new();
        let mut i = begin;
        while i < end
            invariant
                begin <= i <= end,
                end <= bytes@.len(),
                value@ == bytes@.subrange(begin as int, i as int),
            decreases end - i,
        {
            value.push(bytes[i]);
            proof {
                assert(value@ =~= bytes@.subrange(begin as int, i + 1));
            }
            i = i + 1;
        }
        Ok(BencodeString { value, start_position, continuation_position: end })
    }

    pub fn decode_integer(bytes: &[u8], start_position: usize) -> (r: Result<BencodeInteger, BencodeError>)
        ensures
            match r {
                Ok(i) => parse_integer(bytes@, start_position as int) == Some(i@)
                    && start_position < i.continuation_position <= bytes@.len(),
                Err(_) => parse_integer(bytes@, start_position as int) is None,
            },
    {
        let ghost b = bytes@;
        let length = bytes.len();
        if start_position >= bytes.len() {
            return Err(malformed("unexpected end of input"));
        }
        if bytes[start_position] != 105 {
            return Err(malformed("expected 'i' at the start of an integer"));
        }
        let mut position = start_position + 1;
        if position >= bytes.len() {
            return Err(malformed("unexpected end of input in an integer"));
        }
        let negative = bytes[position] == 45;
        if negative {
            position = position + 1;
        }
        let digits_start = position;
        let ghost d = digits_start as int;
        proof {
            lemma_digits_end(b, d);
        }
        let mut result: i128 = 0;
        while position < bytes.len() && is_digit_byte(bytes[position])
            invariant
                d <= position <= b.len(),
                b == bytes@,
                d == digits_start,
                d <= b.len(),
                start_position < b.len(),
                b[start_position as int] == 105,
                negative == (start_position + 1 < b.len() && b[start_position + 1] == 45),
                d == (if negative { start_position + 2 } else { start_position + 1 }),
                position > d + 1 ==> b[d] != 48,
                forall|i: int| d <= i < position ==> is_digit(#[trigger] b[i]),
                digits_end(b, d) == digits_end(b, position as int),
                result == (if negative { -decimal(b, d, position as int) } else { decimal(b, d, position as int) }),
            decreases bytes.len() - position,
        {
            proof {
                lemma_digits_end(b, position + 1);
                assert(digits_end(b, position as int) == digits_end(b, position + 1));
            }
            if position > digits_start && bytes[digits_start] == 48 {
                return Err(malformed("leading zero in an integer"));
            }
            let digit = (bytes[position] - 48) as i128;
            let next = match result.checked_mul(10) {
                Some(m) => if negative {
                    m.checked_sub(digit)
                } else {
                    m.checked_add(digit)
                },
                None => None,
            };
            match next {
                Some(n) => {
                    result = n;
                }
                None => {
                    proof {
                        lemma_decimal_monotone(b, d, position as int, position + 1);
                        lemma_decimal_monotone(b, d, position + 1, digits_end(b, d));
                    }
                    return Err(malformed("integer overflows"));
                }
            }
            position = position + 1;
        }
        proof {
            lemma_digits_end(b, position as int);
        }
        if position == digits_start {
            return Err(malformed("expected a digit in an integer"));
        }
        if position >= bytes.len() || bytes[position] != 101 {
            return Err(malformed("expected 'e' at the end of an integer"));
        }
        if negative && bytes[digits_start] == 48 {
            return Err(malformed("negative zero is not an integer"));
        }
        Ok(BencodeInteger { value: result, start_position, continuation_position: position + 1 })
    }

    pub fn decode_list(bytes: &[u8], start_position: usize) -> (r: Result<BencodeList, BencodeError>)
        ensures
            match r {
                Ok(l) => parse_token(bytes@, start_position as int) == Some(l@)
                    && start_position < l.continuation_position <= bytes@.len()
                    && bytes@[start_position as int] == 108,
                Err(_) => !(start_position < bytes@.len() && bytes@[start_position as int] == 108)
                    || parse_token(bytes@, start_position as int) is None,
            },
        decreases bytes@.len() - start_position, 0int,
    {
        let ghost b = bytes@;
        let ghost start = start_position as int;
        let length = bytes.len();
        if start_position >= bytes.len() || bytes[start_position] != 108 {
            return Err(malformed("expected 'l' at the start of a list"));
        }
        let mut tokens: Vec<BencodeToken> = Vec::new();
        let ghost mut items: Seq<TokenModel> = Seq::empty();
        let mut position = start_position + 1;
        while position < bytes.len() && bytes[position] != 101
            invariant
                start < position <= b.len(),
                b == bytes@,
                start == start_position,
                b[start] == 108,
                tokens@.len() == items.len(),
                forall|i: int| 0 <= i < items.len() ==> (#[trigger] tokens@[i])@ == items[i],
                parse_items(b, start + 1) == prepend(items, parse_items(b, position as int)),
            decreases bytes.len() - position,
        {
            let token = Parser::decode_any(bytes, position)?;
            let ghost t = token@;
            let next = Parser::get_continuation_position(&token);
            tokens.push(token);
            proof {
                lemma_prepend_push(items, t, parse_items(b, next as int));
                items = items.push(t);
            }
            position = next;
        }
        if position >= bytes.len() {
            return Err(malformed("unexpected end of input in a list"));
        }
        let list = BencodeList { value: tokens, start_position, continuation_position: position + 1 };
        proof {
            let v = list@;
            if let TokenModel::List { items: its, .. } = v {
                assert(its =~= items);
            }
        }
        Ok(list)
    }

    pub fn decode_dictionary(bytes: &[u8], start_position: usize) -> (r: Result<BencodeDictionary, BencodeError>)
        ensures
            match r {
                Ok(d) => parse_token(bytes@, start_position as int) == Some(d@)
                    && start_position < d.continuation_position <= bytes@.len()
                    && bytes@[start_position as int] == 100,
                Err(_) => !(start_position < bytes@.len() && bytes@[start_position as int] == 100)
                    || parse_token(bytes@, start_position as int) is None,
            },
        decreases bytes@.len() - start_position, 0int,
    {
        let ghost b = bytes@;
        let ghost start = start_position as int;
        let length = bytes.len();
        if start_position >= bytes.len() || bytes[start_position] != 100 {
            return Err(malformed("expected 'd' at the start of a dictionary"));
        }
        let mut keys: Vec<BencodeString> = Vec::new();
        let mut values: Vec<BencodeToken> = Vec::new();
        let ghost mut kms: Seq<StrModel> = Seq::empty();
        let ghost mut vms: Seq<TokenModel> = Seq::empty();
        let mut position = start_position + 1;
        while position < bytes.len() && bytes[position] != 101
            invariant
                start < position <= b.len(),
                b == bytes@,
                start == start_position,
                b[start] == 100,
                keys@.len() == kms.len(),
                values@.len() == vms.len(),
                forall|i: int| 0 <= i < kms.len() ==> (#[trigger] keys@[i])@ == kms[i],
                forall|i: int| 0 <= i < vms.len() ==> (#[trigger] values@[i])@ == vms[i],
                parse_entries(b, start + 1, None) == prepend_entries(
                    kms,
                    vms,
                    parse_entries(
                        b,
                        position as int,
                        if kms.len() == 0 { None } else { Some(kms.last().value) },
                    ),
                ),
            decreases bytes.len() - position,
        {
            let ghost prev: Option<Seq<u8>> = if kms.len() == 0 { None } else { Some(kms.last().value) };
            if !is_digit_byte(bytes[position]) {
                return Err(malformed("expected a string key in a dictionary"));
            }
            let key = Parser::decode_string(bytes, position)?;
            if keys.len() > 0 {
                let last = keys.len() - 1;
                if !bytes_less(keys[last].value.as_slice(), key.value.as_slice()) {
                    return Err(malformed("dictionary keys are not in strictly ascending order"));
                }
            }
            let value_position = key.continuation_position;
            let value = Parser::decode_any(bytes, value_position)?;
            let next = Parser::get_continuation_position(&value);
            let ghost k = key@;
            let ghost v = value@;
            assert(parse_entries(b, position as int, prev) == prepend_entries(
                seq![k],
                seq![v],
                parse_entries(b, next as int, Some(k.value)),
            ));
            keys.push(key);
            values.push(value);
            proof {
                lemma_prepend_entries_push(kms, vms, k, v, parse_entries(b, next as int, Some(k.value)));
                kms = kms.push(k);
                vms = vms.push(v);
            }
            position = next;
        }
        if position >= bytes.len() {
            return Err(malformed("unexpected end of input in a dictionary"));
        }
        let dictionary = BencodeDictionary {
            keys,
            values,
            start_position,
            continuation_position: position + 1,
        };
        proof {
            let m = dictionary@;
            if let TokenModel::Dict { keys: ks, values: vs, .. } = m {
                assert(ks =~= kms);
                assert(vs =~= vms);
            }
        }
        Ok(dictionary)
    }

    pub fn get_continuation_position(token: &BencodeToken) -> (r: usize)
        ensures
            r == token@.end(),
    {
        match token {
            BencodeToken::String(value) => value.continuation_position,
            BencodeToken::List(value) => value.continuation_position,
            BencodeToken::Integer(value) => value.continuation_position,
            BencodeToken::Dictionary(value) => value.continuation_position,
        }
    }
}

} // verus!

verus! {

// ---------------------------------------------------------------------------
// Dictionary lookup
// ---------------------------------------------------------------------------

/// The first index below `n` from `i` on whose key is `k`.
pub open spec fn first_key_index(keys: Seq<StrModel>, n: int, k: Seq<u8>, i: int) -> Option<int>
    decreases n - i,
{
    if i >= n || i < 0 {
        None
    } else if keys[i].value == k {
        Some(i)
    } else {
        first_key_index(keys, n, k, i + 1)
    }
}

impl BencodeDictionary {
    /// The number of key/value pairs: keys and values are paired by index.
    pub open spec fn entry_count(&self) -> int {
        if self.keys.len() <= self.values.len() {
            self.keys.len() as int
        } else {
            self.values.len() as int
        }
    }

    /// The value of the first key equal to `k`.
    pub open spec fn entry(&self, k: Seq<u8>) -> Option<BencodeToken> {
        match first_key_index(self.keys@.map_values(|s: BencodeString| s@), self.entry_count(), k, 0) {
            Some(i) => Some(self.values@[i]),
            None => None,
        }
    }

    pub fn find_dictionary_value<'a>(&'a self, target_key: &[u8]) -> (r: Result<&'a BencodeDictionary, BencodeError>)
        ensures
            match r {
                Ok(d) => self.entry(target_key@) == Some(BencodeToken::Dictionary(*d)),
                Err(_) => !(self.entry(target_key@) matches Some(BencodeToken::Dictionary(_))),
            },
    {
        let token = self.find_value_required(target_key)?;
        if let BencodeToken::Dictionary(value) = token {
            return Ok(value);
        }
        Err(malformed("required key is not a dictionary"))
    }

    pub fn find_list_value<'a>(&'a self, target_key: &[u8]) -> (r: Result<&'a BencodeList, BencodeError>)
        ensures
            match r {
                Ok(l) => self.entry(target_key@) == Some(BencodeToken::List(*l)),
                Err(_) => !(self.entry(target_key@) matches Some(BencodeToken::List(_))),
            },
    {
        let token = self.find_value_required(target_key)?;
        if let BencodeToken::List(value) = token {
            return Ok(value);
        }
        Err(malformed("required key is not a list"))
    }

    pub fn find_integer_value<'a>(&'a self, target_key: &[u8]) -> (r: Result<&'a BencodeInteger, BencodeError>)
        ensures
            match r {
                Ok(i) => self.entry(target_key@) == Some(BencodeToken::Integer(*i)),
                Err(_) => !(self.entry(target_key@) matches Some(BencodeToken::Integer(_))),
            },
    {
        let token = self.find_value_required(target_key)?;
        if let BencodeToken::Integer(value) = token {
            return Ok(value);
        }
        Err(malformed("required key is not an integer"))
    }

    pub fn find_string_value<'a>(&'a self, target_key: &[u8]) -> (r: Result<&'a BencodeString, BencodeError>)
        ensures
            match r {
                Ok(s) => self.entry(target_key@) == Some(BencodeToken::String(*s)),
                Err(_) => !(self.entry(target_key@) matches Some(BencodeToken::String(_))),
            },
    {
        let token = self.find_value_required(target_key)?;
        if let BencodeToken::String(value) = token {
            return Ok(value);
        }
        Err(malformed("required key is not a string"))
    }

    fn find_value_required<'a>(&'a self, target_key: &[u8]) -> (r: Result<&'a BencodeToken, BencodeError>)
        ensures
            match r {
                Ok(t) => self.entry(target_key@) == Some(*t),
                Err(_) => self.entry(target_key@) is None,
            },
    {
        if let Some(value) = self.find_value(target_key) {
            return Ok(value);
        }
        Err(malformed("required key is not found in dictionary"))
    }

    fn find_value<'a>(&'a self, target_key: &[u8]) -> (r: Option<&'a BencodeToken>)
        ensures
            match r {
                Some(t) => self.entry(target_key@) == Some(*t),
                None => self.entry(target_key@) is None,
            },
    {
        let n = if self.keys.len() <= self.values.len() {
            self.keys.len()
        } else {
            self.values.len()
        };
        let mut i: usize = 0;
        while i < n
            invariant
                i <= n,
                n == self.entry_count(),
                n <= self.values.len(),
                n <= self.keys.len(),
                first_key_index(self.keys@.map_values(|s: BencodeString| s@), n as int, target_key@, 0)
                    == first_key_index(
                    self.keys@.map_values(|s: BencodeString| s@),
                    n as int,
                    target_key@,
                    i as int,
                ),
            decreases n - i,
        {
            if bytes_equal(target_key, self.keys[i].value.as_slice()) {
                return Some(&self.values[i]);
            }
            i = i + 1;
        }
        None
    }
}

/// The value of the first key equal to `k` in a dictionary model.
pub open spec fn model_entry(keys: Seq<StrModel>, values: Seq<TokenModel>, k: Seq<u8>) -> Option<TokenModel> {
    let n = if keys.len() <= values.len() { keys.len() as int } else { values.len() as int };
    match first_key_index(keys, n, k, 0) {
        Some(i) => Some(values[i]),
        None => None,
    }
}

/// What a dictionary looks up is what its model looks up.
pub proof fn lemma_entry_model(d: &BencodeDictionary, k: Seq<u8>)
    ensures
        d@ matches TokenModel::Dict { keys, values, .. } && model_entry(keys, values, k) == match d.entry(k) {
            Some(t) => Some(t@),
            None => None,
        },
{
    let keys = d.keys@.map_values(|s: BencodeString| s@);
    let n = d.entry_count();
    if let Some(i) = first_key_index(keys, n, k, 0) {
        lemma_first_key_index_bounds(keys, n, k, 0);
    }
}

proof fn lemma_first_key_index_bounds(keys: Seq<StrModel>, n: int, k: Seq<u8>, i: int)
    ensures
        first_key_index(keys, n, k, i) matches Some(j) ==> 0 <= j < n && i <= j,
    decreases n - i,
{
    if 0 <= i < n && keys[i].value != k {
        lemma_first_key_index_bounds(keys, n, k, i + 1);
    }
}

// ---------------------------------------------------------------------------
// Key order of decoded dictionaries
// ---------------------------------------------------------------------------

/// Each key strictly below the next one.
pub open spec fn keys_ascending(keys: Seq<StrModel>) -> bool {
    forall|i: int| 0 <= i < keys.len() - 1 ==> bytes_lt(#[trigger] keys[i].value, keys[i + 1].value)
}

/// Every dictionary within `t`, `t` included, has strictly ascending keys.
pub open spec fn dictionaries_sorted(t: TokenModel) -> bool
    decreases t,
{
    match t {
        TokenModel::List { items, .. } => forall|i: int|
            0 <= i < items.len() ==> dictionaries_sorted(#[trigger] items[i]),
        TokenModel::Dict { keys, values, .. } => keys_ascending(keys) && forall|i: int|
            0 <= i < values.len() ==> dictionaries_sorted(#[trigger] values[i]),
        _ => true,
    }
}

proof fn lemma_token_sorted(b: Seq<u8>, pos: int)
    ensures
        parse_token(b, pos) matches Some(t) ==> dictionaries_sorted(t),
    decreases b.len() - pos, 0int,
{
    if 0 <= pos < b.len() {
        if b[pos] == 108 {
            lemma_items_sorted(b, pos + 1);
        } else if b[pos] == 100 {
            lemma_entries_sorted(b, pos + 1, None);
        }
    }
}

proof fn lemma_items_sorted(b: Seq<u8>, pos: int)
    ensures
        parse_items(b, pos) matches Some((items, e)) ==> forall|i: int|
            0 <= i < items.len() ==> dictionaries_sorted(#[trigger] items[i]),
    decreases b.len() - pos, 1int,
{
    if 0 <= pos < b.len() && b[pos] != 101 {
        lemma_token_sorted(b, pos);
        if let Some(t) = parse_token(b, pos) {
            if pos < t.end() <= b.len() {
                lemma_items_sorted(b, t.end());
                if let Some((rest, e)) = parse_items(b, t.end()) {
                    let items = seq![t] + rest;
                    assert forall|i: int| 0 <= i < items.len() implies dictionaries_sorted(
                        #[trigger] items[i],
                    ) by {
                        if i > 0 {
                            assert(items[i] == rest[i - 1]);
                        }
                    }
                }
            }
        }
    }
}

proof fn lemma_entries_sorted(b: Seq<u8>, pos: int, prev: Option<Seq<u8>>)
    ensures
        parse_entries(b, pos, prev) matches Some((ks, vs, e)) ==> {
            &&& keys_ascending(ks)
            &&& (prev is Some && ks.len() > 0 ==> bytes_lt(prev->0, ks[0].value))
            &&& forall|i: int| 0 <= i < vs.len() ==> dictionaries_sorted(#[trigger] vs[i])
        },
    decreases b.len() - pos, 1int,
{
    if 0 <= pos < b.len() && b[pos] != 101 {
        if let Some(k) = parse_string(b, pos) {
            if (prev matches Some(p) ==> bytes_lt(p, k.value)) && pos < k.end <= b.len() {
                lemma_token_sorted(b, k.end);
                if let Some(v) = parse_token(b, k.end) {
                    if k.end < v.end() <= b.len() {
                        lemma_entries_sorted(b, v.end(), Some(k.value));
                        if let Some((ks2, vs2, e)) = parse_entries(b, v.end(), Some(k.value)) {
                            let ks = seq![k] + ks2;
                            let vs = seq![v] + vs2;
                            assert forall|i: int| 0 <= i < ks.len() - 1 implies bytes_lt(
                                #[trigger] ks[i].value,
                                ks[i + 1].value,
                            ) by {
                                if i > 0 {
                                    assert(ks[i] == ks2[i - 1]);
                                    assert(ks[i + 1] == ks2[i]);
                                }
                            }
                            assert forall|i: int| 0 <= i < vs.len() implies dictionaries_sorted(
                                #[trigger] vs[i],
                            ) by {
                                if i > 0 {
                                    assert(vs[i] == vs2[i - 1]);
                                }
                            }
                        }
                    }
                }
            }
        }
    }
}

/// Every dictionary in a decoded input, at any depth, has strictly ascending keys.
pub proof fn lemma_decoded_dictionaries_sorted(bytes: Seq<u8>)
    ensures
        spec_decode(bytes) matches Some(t) ==> dictionaries_sorted(t),
{
    lemma_token_sorted(bytes, 0);
}

} // verus!

verus! {

/// Decoding entry point: the whole input as exactly one token.
pub struct Bencode;

impl Bencode {
    pub fn decode(bytes: &[u8]) -> (r: Result<BencodeToken, BencodeError>)
        ensures
            match r {
                Ok(t) => spec_decode(bytes@) == Some(t@),
                Err(_) => spec_decode(bytes@) is None,
            },
    {
        Parser::decode(bytes)
    }
}

} // verus!

verus! {

// ---------------------------------------------------------------------------
// Encoding, and the round trip
// ---------------------------------------------------------------------------

/// The base-10 digits of `n`, as ASCII codes, without leading zeros.
pub open spec fn decimal_text(n: nat) -> Seq<u8>
    decreases n,
{
    if n < 10 {
        seq![(48 + n) as u8]
    } else {
        decimal_text(n / 10).push((48 + n % 10) as u8)
    }
}

pub open spec fn encode_string(v: Seq<u8>) -> Seq<u8> {
    decimal_text(v.len()) + seq![58u8] + v
}

pub open spec fn encode_integer(v: int) -> Seq<u8> {
    seq![105u8] + (if v < 0 { seq![45u8] } else { Seq::empty() }) + decimal_text(
        (if v < 0 { -v } else { v }) as nat,
    ) + seq![101u8]
}

/// The canonical encoding of a token tree.
pub open spec fn encode(t: TokenModel) -> Seq<u8>
    decreases t,
{
    match t {
        TokenModel::Str(s) => encode_string(s.value),
        TokenModel::Int { value, .. } => encode_integer(value),
        TokenModel::List { items, .. } => seq![108u8] + item_encodings(items).flatten() + seq![101u8],
        TokenModel::Dict { keys, values, .. } => seq![100u8] + entry_encodings(keys, values).flatten() + seq![101u8],
    }
}

/// The encoding of each list entry.
pub open spec fn item_encodings(items: Seq<TokenModel>) -> Seq<Seq<u8>>
    decreases items,
{
    Seq::new(
        items.len(),
        |i: int|
            if 0 <= i < items.len() {
                encode(items[i])
            } else {
                Seq::empty()
            },
    )
}

/// The encoding of each dictionary entry: its key, then its value.
pub open spec fn entry_encodings(keys: Seq<StrModel>, values: Seq<TokenModel>) -> Seq<Seq<u8>>
    decreases values,
{
    Seq::new(
        keys.len(),
        |i: int|
            if 0 <= i < keys.len() && i < values.len() {
                encode_string(keys[i].value) + encode(values[i])
            } else {
                Seq::empty()
            },
    )
}

proof fn lemma_decimal_text(b: Seq<u8>, from: int, to: int)
    requires
        0 <= from < to <= b.len(),
        forall|i: int| from <= i < to ==> is_digit(#[trigger] b[i]),
        b[from] == 48 ==> to == from + 1,
    ensures
        decimal(b, from, to) >= 0,
        decimal_text(decimal(b, from, to) as nat) == b.subrange(from, to),
    decreases to - from,
{
    lemma_decimal_monotone(b, from, to, to);
    let d = b[to - 1] - 48;
    if to == from + 1 {
        assert(decimal(b, from, from) == 0);
        assert(decimal_text(decimal(b, from, to) as nat) =~= b.subrange(from, to));
    } else {
        lemma_decimal_text(b, from, to - 1);
        lemma_decimal_monotone(b, from, from + 1, to - 1);
        assert(decimal(b, from, from) == 0);
        let m = decimal(b, from, to - 1);
        let n = decimal(b, from, to);
        assert(m >= 1);
        assert(n == m * 10 + d);
        assert(n / 10 == m && n % 10 == d && n >= 10) by (nonlinear_arith)
            requires
                n == m * 10 + d,
                0 <= d < 10,
                m >= 1,
        ;
        assert(b.subrange(from, to) =~= b.subrange(from, to - 1).push(b[to - 1]));
    }
}

proof fn lemma_string_encoding(b: Seq<u8>, pos: int)
    ensures
        parse_string(b, pos) matches Some(s) ==> encode_string(s.value) == b.subrange(pos, s.end),
{
    if let Some(s) = parse_string(b, pos) {
        lemma_digits_end(b, pos);
        let e = digits_end(b, pos);
        lemma_decimal_text(b, pos, e);
        assert(b.subrange(pos, s.end) =~= b.subrange(pos, e) + seq![58u8] + s.value);
    }
}

proof fn lemma_integer_encoding(b: Seq<u8>, pos: int)
    ensures
        parse_integer(b, pos) matches Some(t) ==> encode(t) == b.subrange(pos, t.end()),
{
    if let Some(t) = parse_integer(b, pos) {
        let neg = pos + 1 < b.len() && b[pos + 1] == 45;
        let d = if neg { pos + 2 } else { pos + 1 };
        lemma_digits_end(b, d);
        let e = digits_end(b, d);
        lemma_decimal_text(b, d, e);
        lemma_decimal_monotone(b, d, d + 1, e);
        assert(decimal(b, d, d) == 0);
        if neg {
            assert(b.subrange(pos, e + 1) =~= seq![105u8] + seq![45u8] + b.subrange(d, e) + seq![101u8]);
        } else {
            assert(b.subrange(pos, e + 1) =~= seq![105u8] + Seq::<u8>::empty() + b.subrange(d, e) + seq![101u8]);
        }
    }
}

proof fn lemma_token_encoding(b: Seq<u8>, pos: int)
    ensures
        parse_token(b, pos) matches Some(t) ==> encode(t) == b.subrange(pos, t.end()) && 0 <= pos < t.end()
            <= b.len() && t.start() == pos,
    decreases b.len() - pos, 0int,
{
    if 0 <= pos < b.len() {
        if is_digit(b[pos]) {
            lemma_string_encoding(b, pos);
            if let Some(s) = parse_string(b, pos) {
                lemma_digits_end(b, pos);
                lemma_decimal_monotone(b, pos, digits_end(b, pos), digits_end(b, pos));
                assert(encode(TokenModel::Str(s)) == encode_string(s.value));
            }
        } else if b[pos] == 105 {
            lemma_integer_encoding(b, pos);
            if let Some(t) = parse_integer(b, pos) {
                assert(encode(t) == b.subrange(pos, t.end()));
                assert(0 <= pos < t.end() <= b.len());
            }
        } else if b[pos] == 108 {
            lemma_items_encoding(b, pos + 1);
            if let Some((items, e)) = parse_items(b, pos + 1) {
                let t = TokenModel::List { items, start: pos, end: e };
                assert(encode(t) == seq![108u8] + item_encodings(items).flatten() + seq![101u8]);
                assert(b.subrange(pos, e) =~= seq![108u8] + b.subrange(pos + 1, e - 1) + seq![101u8]);
            }
        } else if b[pos] == 100 {
            lemma_entries_encoding(b, pos + 1, None);
            if let Some((keys, values, e)) = parse_entries(b, pos + 1, None) {
                let t = TokenModel::Dict { keys, values, start: pos, end: e };
                assert(encode(t) == seq![100u8] + entry_encodings(keys, values).flatten() + seq![101u8]);
                assert(b.subrange(pos, e) =~= seq![100u8] + b.subrange(pos + 1, e - 1) + seq![101u8]);
            }
        }
    }
}

proof fn lemma_items_encoding(b: Seq<u8>, pos: int)
    ensures
        parse_items(b, pos) matches Some((items, e)) ==> {
            &&& 0 <= pos < e <= b.len()
            &&& b[e - 1] == 101
            &&& item_encodings(items).flatten() == b.subrange(pos, e - 1)
        },
    decreases b.len() - pos, 1int,
{
    if 0 <= pos < b.len() {
        if b[pos] == 101 {
            assert(item_encodings(Seq::<TokenModel>::empty()).flatten() =~= b.subrange(pos, pos));
        } else {
            lemma_token_encoding(b, pos);
            if let Some(t) = parse_token(b, pos) {
                if pos < t.end() <= b.len() {
                    lemma_items_encoding(b, t.end());
                    if let Some((rest, e)) = parse_items(b, t.end()) {
                        let items = seq![t] + rest;
                        let s = item_encodings(items);
                        assert(s.drop_first() =~= item_encodings(rest));
                        assert(s.first() == encode(t));
                        assert(b.subrange(pos, e - 1) =~= b.subrange(pos, t.end()) + b.subrange(t.end(), e - 1));
                    }
                }
            }
        }
    }
}

proof fn lemma_entries_encoding(b: Seq<u8>, pos: int, prev: Option<Seq<u8>>)
    ensures
        parse_entries(b, pos, prev) matches Some((keys, values, e)) ==> {
            &&& 0 <= pos < e <= b.len()
            &&& b[e - 1] == 101
            &&& keys.len() == values.len()
            &&& entry_encodings(keys, values).flatten() == b.subrange(pos, e - 1)
            &&& forall|i: int| 0 <= i < values.len() ==> 0 <= (#[trigger] values[i]).start() < values[i].end() <= b.len()
        },
    decreases b.len() - pos, 1int,
{
    if 0 <= pos < b.len() {
        if b[pos] == 101 {
            assert(entry_encodings(Seq::<StrModel>::empty(), Seq::<TokenModel>::empty()).flatten() =~= b.subrange(pos, pos));
        } else if let Some(k) = parse_string(b, pos) {
            if (prev matches Some(p) ==> bytes_lt(p, k.value)) && pos < k.end <= b.len() {
                lemma_string_encoding(b, pos);
                lemma_token_encoding(b, k.end);
                if let Some(v) = parse_token(b, k.end) {
                    if k.end < v.end() <= b.len() {
                        lemma_entries_encoding(b, v.end(), Some(k.value));
                        if let Some((ks2, vs2, e)) = parse_entries(b, v.end(), Some(k.value)) {
                            let keys = seq![k] + ks2;
                            let values = seq![v] + vs2;
                            assert(v.start() == k.end);
                            assert forall|i: int| 0 <= i < values.len() implies 0 <= (#[trigger] values[i]).start()
                                < values[i].end() <= b.len() by {
                                if i > 0 {
                                    assert(values[i] == vs2[i - 1]);
                                }
                            }
                            let s = entry_encodings(keys, values);
                            assert(s.drop_first() =~= entry_encodings(ks2, vs2));
                            assert(s.first() == encode_string(k.value) + encode(v));
                            assert(b.subrange(pos, e - 1) =~= b.subrange(pos, k.end) + b.subrange(k.end, v.end())
                                + b.subrange(v.end(), e - 1));
                        }
                    }
                }
            }
        }
    }
}

/// Every value of a decoded dictionary lies within the input.
pub proof fn lemma_decoded_values_within(bytes: Seq<u8>, k: Seq<u8>)
    ensures
        spec_decode(bytes) matches Some(TokenModel::Dict { keys, values, .. }) ==> (model_entry(keys, values, k) matches Some(
            v,
        ) ==> 0 <= v.start() < v.end() <= bytes.len()),
{
    if let Some(TokenModel::Dict { keys, values, .. }) = spec_decode(bytes) {
        lemma_entries_encoding(bytes, 1, None);
        let n = if keys.len() <= values.len() { keys.len() as int } else { values.len() as int };
        lemma_first_key_index_bounds(keys, n, k, 0);
    }
}

/// Round trip: every decoded input is the canonical encoding of its token tree, so
/// decoding the encoding of a decoded tree gives that tree back.
pub proof fn lemma_decode_encode(bytes: Seq<u8>)
    ensures
        spec_decode(bytes) matches Some(t) ==> encode(t) == bytes && spec_decode(encode(t)) == Some(t),
{
    lemma_token_encoding(bytes, 0);
    if let Some(t) = spec_decode(bytes) {
        assert(bytes.subrange(0, bytes.len() as int) =~= bytes);
    }
}

} // verus!
