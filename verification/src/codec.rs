//! The canonical text forms under which keys, outputs and the checkpoint
//! are persisted: decimal numbers and fields separated by colons.
use vstd::prelude::*;
use vstd::string::{StrSliceExecFns, StringExecFns};
use vstd::utf8::{decode_utf8, valid_utf8};
use crate::model::{IndexedTxid, IndexedTxidView, Utxo, UtxoView, bytes_of};

verus! {

/// Why a stored text was refused.
#[derive(Debug, Clone, Copy, PartialEq, Eq, Structural)]
pub enum ParseError {
    /// The bytes are not UTF-8.
    BadEncoding,
    /// The text has another number of fields than its form has.
    FieldCount,
    /// The output index is no number, or too large.
    BadIndex,
    /// The value or height is no number, or too large.
    BadValue,
}

/// The character of a decimal digit.
pub open spec fn digit_char(d: nat) -> char {
    if d == 0 {
        '0'
    } else if d == 1 {
        '1'
    } else if d == 2 {
        '2'
    } else if d == 3 {
        '3'
    } else if d == 4 {
        '4'
    } else if d == 5 {
        '5'
    } else if d == 6 {
        '6'
    } else if d == 7 {
        '7'
    } else if d == 8 {
        '8'
    } else {
        '9'
    }
}

/// The digit that a character stands for, if it is one.
pub open spec fn digit_value(c: char) -> Option<nat> {
    if c == '0' {
        Some(0)
    } else if c == '1' {
        Some(1)
    } else if c == '2' {
        Some(2)
    } else if c == '3' {
        Some(3)
    } else if c == '4' {
        Some(4)
    } else if c == '5' {
        Some(5)
    } else if c == '6' {
        Some(6)
    } else if c == '7' {
        Some(7)
    } else if c == '8' {
        Some(8)
    } else if c == '9' {
        Some(9)
    } else {
        None
    }
}

/// A number in decimal, without sign or leading zeros.
pub open spec fn decimal(n: nat) -> Seq<char>
    decreases n,
{
    if n < 10 {
        seq![digit_char(n)]
    } else {
        decimal(n / 10).push(digit_char(n % 10))
    }
}

/// The number that a run of decimal digits stands for; `None` where a
/// character is no digit. The empty run stands for zero.
pub open spec fn digits_value(s: Seq<char>) -> Option<nat>
    decreases s.len(),
{
    if s.len() == 0 {
        Some(0)
    } else {
        match (digits_value(s.drop_last()), digit_value(s.last())) {
            (Some(high), Some(d)) => Some(high * 10 + d),
            _ => None,
        }
    }
}

/// The number that a text stands for: one or more decimal digits, after an
/// optional `+`, with a value of at most `max`.
pub open spec fn parse_decimal(s: Seq<char>, max: nat) -> Option<nat> {
    let body = if s.len() > 0 && s[0] == '+' {
        s.drop_first()
    } else {
        s
    };
    if body.len() == 0 {
        None
    } else {
        match digits_value(body) {
            Some(v) => if v <= max {
                Some(v)
            } else {
                None
            },
            None => None,
        }
    }
}

/// The fields of a text that colons separate: a text without a colon is one field.
pub open spec fn fields(s: Seq<char>) -> Seq<Seq<char>>
    decreases s.len(),
{
    if s.len() == 0 {
        seq![Seq::empty()]
    } else {
        let earlier = fields(s.drop_last());
        if s.last() == ':' {
            earlier.push(Seq::empty())
        } else {
            earlier.update(earlier.len() - 1, earlier.last().push(s.last()))
        }
    }
}

/// The canonical text of an output reference: index, colon, transaction.
pub open spec fn key_text(k: IndexedTxidView) -> Seq<char> {
    decimal(k.index as nat) + seq![':'] + k.tx_id
}

/// The canonical text of an output: index, address and value, separated by colons.
pub open spec fn utxo_text(u: UtxoView) -> Seq<char> {
    decimal(u.index as nat) + seq![':'] + u.address + seq![':'] + decimal(u.value as nat)
}

/// The output reference that a text stands for.
pub open spec fn parse_key(s: Seq<char>) -> Result<IndexedTxidView, ParseError> {
    let f = fields(s);
    if f.len() != 2 {
        Err(ParseError::FieldCount)
    } else {
        match parse_decimal(f[0], usize::MAX as nat) {
            None => Err(ParseError::BadIndex),
            Some(i) => Ok(IndexedTxidView { index: i as usize, tx_id: f[1] }),
        }
    }
}

/// The output that a text stands for.
pub open spec fn parse_utxo(s: Seq<char>) -> Result<UtxoView, ParseError> {
    let f = fields(s);
    if f.len() != 3 {
        Err(ParseError::FieldCount)
    } else {
        match parse_decimal(f[0], usize::MAX as nat) {
            None => Err(ParseError::BadIndex),
            Some(i) => match parse_decimal(f[2], u64::MAX as nat) {
                None => Err(ParseError::BadValue),
                Some(v) => Ok(UtxoView { index: i as usize, address: f[1], value: v as u64 }),
            },
        }
    }
}

/// The checkpoint that stored bytes stand for: height 0 where nothing is stored.
pub open spec fn parse_checkpoint(stored: Option<Seq<u8>>) -> Result<u64, ParseError> {
    match stored {
        None => Ok(0),
        Some(bytes) => if !valid_utf8(bytes) {
            Err(ParseError::BadEncoding)
        } else {
            match parse_decimal(decode_utf8(bytes), u64::MAX as nat) {
                Some(h) => Ok(h as u64),
                None => Err(ParseError::BadValue),
            }
        },
    }
}

/// A run of digits has a value only if each shorter run has one, and no larger one.
pub proof fn lemma_digits_prefix(s: Seq<char>, k: int)
    requires
        0 <= k <= s.len(),
        digits_value(s) is Some,
    ensures
        digits_value(s.subrange(0, k)) is Some,
        digits_value(s.subrange(0, k))->Some_0 <= digits_value(s)->Some_0,
    decreases s.len(),
{
    if k == s.len() {
        assert(s.subrange(0, k) =~= s);
    } else {
        assert(s.drop_last().subrange(0, k) =~= s.subrange(0, k));
        lemma_digits_prefix(s.drop_last(), k);
    }
}

/// The text holds no colon.
pub open spec fn colon_free(s: Seq<char>) -> bool {
    forall|i: int| 0 <= i < s.len() ==> s[i] != ':'
}

/// A number in decimal is a run of one or more digits, and they stand for the number.
pub proof fn lemma_decimal_is_digits(n: nat)
    ensures
        decimal(n).len() >= 1,
        forall|i: int| 0 <= i < decimal(n).len() ==> digit_value(#[trigger] decimal(n)[i]) is Some,
        digits_value(decimal(n)) == Some(n),
    decreases n,
{
    if n < 10 {
        assert(decimal(n).drop_last() =~= Seq::<char>::empty());
        assert(digits_value(decimal(n).drop_last()) == Some(0nat));
    } else {
        lemma_decimal_is_digits(n / 10);
        assert(decimal(n).drop_last() =~= decimal(n / 10));
        assert(decimal(n).last() == digit_char(n % 10));
        assert(digit_value(digit_char(n % 10)) == Some(n % 10));
    }
}

/// What was written in decimal is read back as the same number.
pub proof fn lemma_decimal_round_trip(n: nat, max: nat)
    requires
        n <= max,
    ensures
        parse_decimal(decimal(n), max) == Some(n),
        colon_free(decimal(n)),
{
    lemma_decimal_is_digits(n);
    assert(digit_value(decimal(n)[0]) is Some);
    assert forall|i: int| 0 <= i < decimal(n).len() implies decimal(n)[i] != ':' by {
        assert(digit_value(decimal(n)[i]) is Some);
    }
}

proof fn lemma_fields_nonempty(s: Seq<char>)
    ensures
        fields(s).len() >= 1,
    decreases s.len(),
{
    if s.len() > 0 {
        lemma_fields_nonempty(s.drop_last());
    }
}

/// Text without a colon, put behind a text, extends that text's last field.
pub proof fn lemma_fields_append(s: Seq<char>, t: Seq<char>)
    requires
        colon_free(t),
    ensures
        fields(s).len() >= 1,
        fields(s + t) == fields(s).update(fields(s).len() - 1, fields(s).last() + t),
    decreases t.len(),
{
    lemma_fields_nonempty(s);
    let f = fields(s);
    if t.len() == 0 {
        assert(s + t =~= s);
        assert(f.last() + t =~= f.last());
        assert(f.update(f.len() - 1, f.last()) =~= f);
    } else {
        let shorter = t.drop_last();
        assert((s + t).drop_last() =~= s + shorter);
        assert((s + t).last() == t.last());
        assert(t[t.len() - 1] != ':');
        assert forall|i: int| 0 <= i < shorter.len() implies shorter[i] != ':' by {
            assert(shorter[i] == t[i]);
        }
        lemma_fields_append(s, shorter);
        assert((f.last() + shorter).push(t.last()) =~= f.last() + t);
        assert(fields(s + t) =~= f.update(f.len() - 1, f.last() + t));
    }
}

/// A colon behind a text opens a new, empty field.
pub proof fn lemma_fields_colon(s: Seq<char>)
    ensures
        fields(s + seq![':']) == fields(s).push(Seq::<char>::empty()),
{
    let t = s + seq![':'];
    assert(t.drop_last() =~= s);
    assert(t.last() == ':');
}

/// A field without a colon, put behind a text and a colon, is that text's next field.
pub proof fn lemma_fields_next(s: Seq<char>, t: Seq<char>)
    requires
        colon_free(t),
    ensures
        fields(s + seq![':'] + t) == fields(s).push(t),
{
    lemma_fields_colon(s);
    lemma_fields_append(s + seq![':'], t);
    assert(Seq::<char>::empty() + t =~= t);
    assert(fields(s).push(Seq::<char>::empty()).update(fields(s).len() as int, t) =~= fields(
        s,
    ).push(t));
}

/// The text of an output reference is read back as that reference, unless
/// the transaction's name holds a colon.
pub proof fn lemma_key_round_trip(k: IndexedTxidView)
    requires
        colon_free(k.tx_id),
    ensures
        parse_key(key_text(k)) == Ok::<IndexedTxidView, ParseError>(k),
{
    let index = decimal(k.index as nat);
    lemma_decimal_round_trip(k.index as nat, usize::MAX as nat);
    lemma_fields_append(Seq::<char>::empty(), index);
    assert(Seq::<char>::empty() + index =~= index);
    assert(fields(index) =~= seq![index]);
    lemma_fields_next(index, k.tx_id);
    assert(fields(key_text(k)) =~= seq![index, k.tx_id]);
}

/// The text of an output is read back as that output, unless the address
/// holds a colon.
pub proof fn lemma_utxo_round_trip(u: UtxoView)
    requires
        colon_free(u.address),
    ensures
        parse_utxo(utxo_text(u)) == Ok::<UtxoView, ParseError>(u),
{
    let index = decimal(u.index as nat);
    let value = decimal(u.value as nat);
    lemma_decimal_round_trip(u.index as nat, usize::MAX as nat);
    lemma_decimal_round_trip(u.value as nat, u64::MAX as nat);
    lemma_fields_append(Seq::<char>::empty(), index);
    assert(Seq::<char>::empty() + index =~= index);
    assert(fields(index) =~= seq![index]);
    lemma_fields_next(index, u.address);
    lemma_fields_next(index + seq![':'] + u.address, value);
    assert(fields(utxo_text(u)) =~= seq![index, u.address, value]);
}

/// The checkpoint that was stored is the one read back.
pub proof fn lemma_checkpoint_round_trip(height: u64)
    ensures
        parse_checkpoint(Some(vstd::utf8::encode_utf8(decimal(height as nat)))) == Ok::<
            u64,
            ParseError,
        >(height),
{
    lemma_decimal_round_trip(height as nat, u64::MAX as nat);
    vstd::utf8::encode_utf8_valid_utf8(decimal(height as nat));
    vstd::utf8::encode_utf8_decode_utf8(decimal(height as nat));
}

fn digit_str(d: u64) -> (r: &'static str)
    requires
        d < 10,
    ensures
        r@ == seq![digit_char(d as nat)],
{
    proof {
        reveal_strlit("0");
        reveal_strlit("1");
        reveal_strlit("2");
        reveal_strlit("3");
        reveal_strlit("4");
        reveal_strlit("5");
        reveal_strlit("6");
        reveal_strlit("7");
        reveal_strlit("8");
        reveal_strlit("9");
    }
    let r = if d == 0 {
        "0"
    } else if d == 1 {
        "1"
    } else if d == 2 {
        "2"
    } else if d == 3 {
        "3"
    } else if d == 4 {
        "4"
    } else if d == 5 {
        "5"
    } else if d == 6 {
        "6"
    } else if d == 7 {
        "7"
    } else if d == 8 {
        "8"
    } else {
        "9"
    };
    assert(r@ =~= seq![digit_char(d as nat)]);
    r
}

fn digit_of(c: char) -> (r: Option<u64>)
    ensures
        match r {
            Some(d) => d < 10 && digit_value(c) == Some(d as nat),
            None => digit_value(c) is None,
        },
{
    if c == '0' {
        Some(0)
    } else if c == '1' {
        Some(1)
    } else if c == '2' {
        Some(2)
    } else if c == '3' {
        Some(3)
    } else if c == '4' {
        Some(4)
    } else if c == '5' {
        Some(5)
    } else if c == '6' {
        Some(6)
    } else if c == '7' {
        Some(7)
    } else if c == '8' {
        Some(8)
    } else if c == '9' {
        Some(9)
    } else {
        None
    }
}

/// A number written in decimal.
pub fn format_u64(n: u64) -> (r: String)
    ensures
        r@ == decimal(n as nat),
    decreases n,
{
    if n < 10 {
        String::from_str(digit_str(n))
    } else {
        let mut s = format_u64(n / 10);
        s.append(digit_str(n % 10));
        assert(s@ =~= decimal(n as nat));
        s
    }
}

/// Reads a decimal number of at most 64 bits.
pub fn parse_u64(s: &str) -> (r: Option<u64>)
    ensures
        match r {
            Some(v) => parse_decimal(s@, u64::MAX as nat) == Some(v as nat),
            None => parse_decimal(s@, u64::MAX as nat) is None,
        },
{
    let n = s.unicode_len();
    let start: usize = if n > 0 && s.get_char(0) == '+' {
        1
    } else {
        0
    };
    if start == n {
        return None;
    }
    let ghost body = s@.subrange(start as int, n as int);
    assert(body =~= if s@.len() > 0 && s@[0] == '+' {
        s@.drop_first()
    } else {
        s@
    });
    let mut acc: u64 = 0;
    let mut i: usize = start;
    assert(body.subrange(0, 0) =~= Seq::<char>::empty());
    while i < n
        invariant
            start <= i <= n,
            n == s@.len(),
            body.len() > 0,
            body == (if s@.len() > 0 && s@[0] == '+' {
                s@.drop_first()
            } else {
                s@
            }),
            body == s@.subrange(start as int, n as int),
            digits_value(body.subrange(0, i - start)) == Some(acc as nat),
        decreases n - i,
    {
        let c = s.get_char(i);
        proof {
            let upto = body.subrange(0, i - start + 1);
            assert(upto.drop_last() =~= body.subrange(0, i - start));
            assert(upto.last() == c);
            assert(digits_value(upto) == match (digits_value(upto.drop_last()), digit_value(c)) {
                (Some(high), Some(d)) => Some(high * 10 + d),
                _ => None,
            });
            if digits_value(body) is Some {
                lemma_digits_prefix(body, i - start + 1);
            }
        }
        match digit_of(c) {
            None => {
                return None;
            },
            Some(d) => {
                if acc > (u64::MAX - d) / 10 {
                    return None;
                }
                acc = acc * 10 + d;
            },
        }
        i += 1;
    }
    assert(body.subrange(0, n - start) =~= body);
    Some(acc)
}

/// Reads a decimal number that fits an index.
pub fn parse_usize(s: &str) -> (r: Option<usize>)
    ensures
        match r {
            Some(v) => parse_decimal(s@, usize::MAX as nat) == Some(v as nat),
            None => parse_decimal(s@, usize::MAX as nat) is None,
        },
{
    match parse_u64(s) {
        Some(v) => if v <= usize::MAX as u64 {
            Some(v as usize)
        } else {
            None
        },
        None => None,
    }
}

/// The texts of a sequence of strings.
pub open spec fn texts(v: Seq<String>) -> Seq<Seq<char>> {
    Seq::new(v.len(), |i: int| v[i]@)
}

/// Splits a text at its colons.
pub fn split_fields(s: &str) -> (r: Vec<String>)
    ensures
        texts(r@) == fields(s@),
{
    let n = s.unicode_len();
    let mut parts: Vec<String> = Vec::new();
    let mut start: usize = 0;
    let mut i: usize = 0;
    assert(s@.subrange(0, 0) =~= Seq::<char>::empty());
    assert(fields(s@.subrange(0, 0)) =~= texts(parts@).push(s@.subrange(0, 0)));
    while i < n
        invariant
            start <= i <= n,
            n == s@.len(),
            fields(s@.subrange(0, i as int)) == texts(parts@).push(
                s@.subrange(start as int, i as int),
            ),
        decreases n - i,
    {
        let ghost done = texts(parts@);
        proof {
            let upto = s@.subrange(0, i + 1);
            assert(upto.drop_last() =~= s@.subrange(0, i as int));
            assert(upto.last() == s@[i as int]);
        }
        if s.get_char(i) == ':' {
            parts.push(s.substring_char(start, i).to_owned());
            assert(texts(parts@) =~= done.push(s@.subrange(start as int, i as int)));
            start = i + 1;
            assert(s@.subrange(start as int, i + 1) =~= Seq::<char>::empty());
        } else {
            assert(s@.subrange(start as int, i + 1) =~= s@.subrange(start as int, i as int).push(
                s@[i as int],
            ));
            assert(fields(s@.subrange(0, i + 1)) =~= done.push(s@.subrange(start as int, i + 1)));
        }
        i += 1;
    }
    let ghost done = texts(parts@);
    parts.push(s.substring_char(start, n).to_owned());
    assert(texts(parts@) =~= done.push(s@.subrange(start as int, n as int)));
    assert(s@.subrange(0, n as int) =~= s@);
    parts
}

/// Makes a string of bytes with `String::from_utf8`. Taken on trust: the
/// result is the text that the bytes encode, or `None` where they are not UTF-8.
#[verifier::external_body]
fn text_from_utf8(bytes: Vec<u8>) -> (r: Option<String>)
    ensures
        match r {
            Some(s) => valid_utf8(bytes@) && s@ == decode_utf8(bytes@),
            None => !valid_utf8(bytes@),
        },
{
    match String::from_utf8(bytes) {
        Ok(text) => Some(text),
        Err(_) => None,
    }
}

impl IndexedTxid {
    /// The canonical text: index, colon, transaction.
    pub fn to_string(&self) -> (r: String)
        ensures
            r@ == key_text(self@),
    {
        proof {
            reveal_strlit(":");
        }
        let mut s = format_u64(self.index as u64);
        s.append(":");
        s.append(self.tx_id.as_str());
        assert(s@ =~= key_text(self@));
        s
    }

    /// Reads the canonical text. Any other number of fields than two, or an
    /// index that is no number, is refused.
    pub fn from_str(s: &str) -> (r: Result<IndexedTxid, ParseError>)
        ensures
            match parse_key(s@) {
                Ok(k) => r is Ok && r->Ok_0@ == k,
                Err(e) => r == Err::<IndexedTxid, ParseError>(e),
            },
    {
        let parts = split_fields(s);
        assert(texts(parts@).len() == parts@.len());
        if parts.len() != 2 {
            return Err(ParseError::FieldCount);
        }
        assert(texts(parts@)[0] == parts@[0]@);
        assert(texts(parts@)[1] == parts@[1]@);
        match parse_usize(parts[0].as_str()) {
            None => Err(ParseError::BadIndex),
            Some(index) => Ok(IndexedTxid { index, tx_id: parts[1].clone() }),
        }
    }
}

impl Utxo {
    /// The canonical text: index, address and value, separated by colons.
    pub fn to_string(&self) -> (r: String)
        ensures
            r@ == utxo_text(self@),
    {
        proof {
            reveal_strlit(":");
        }
        let mut s = format_u64(self.index as u64);
        s.append(":");
        s.append(self.address.as_str());
        s.append(":");
        let value = format_u64(self.value);
        s.append(value.as_str());
        assert(s@ =~= utxo_text(self@));
        s
    }

    /// Reads the canonical text. Any other number of fields than three, or
    /// an index or value that is no number, is refused.
    pub fn from_str(s: &str) -> (r: Result<Utxo, ParseError>)
        ensures
            match parse_utxo(s@) {
                Ok(u) => r is Ok && r->Ok_0@ == u,
                Err(e) => r == Err::<Utxo, ParseError>(e),
            },
    {
        let parts = split_fields(s);
        assert(texts(parts@).len() == parts@.len());
        if parts.len() != 3 {
            return Err(ParseError::FieldCount);
        }
        assert(texts(parts@)[0] == parts@[0]@);
        assert(texts(parts@)[1] == parts@[1]@);
        assert(texts(parts@)[2] == parts@[2]@);
        let index = match parse_usize(parts[0].as_str()) {
            None => {
                return Err(ParseError::BadIndex);
            },
            Some(i) => i,
        };
        match parse_u64(parts[2].as_str()) {
            None => Err(ParseError::BadValue),
            Some(value) => Ok(Utxo { index, address: parts[1].clone(), value }),
        }
    }

    /// Reads an output from stored bytes: they must be UTF-8 and hold the canonical text.
    pub fn try_from(stored: Vec<u8>) -> (r: Result<Utxo, ParseError>)
        ensures
            !valid_utf8(stored@) ==> r == Err::<Utxo, ParseError>(ParseError::BadEncoding),
            valid_utf8(stored@) ==> match parse_utxo(decode_utf8(stored@)) {
                Ok(u) => r is Ok && r->Ok_0@ == u,
                Err(e) => r == Err::<Utxo, ParseError>(e),
            },
    {
        match text_from_utf8(stored) {
            None => Err(ParseError::BadEncoding),
            Some(text) => Utxo::from_str(text.as_str()),
        }
    }
}

/// The checkpoint as it is stored: the height in decimal.
pub fn format_checkpoint(height: u64) -> (r: String)
    ensures
        r@ == decimal(height as nat),
{
    format_u64(height)
}

/// The checkpoint that was stored: height 0 where nothing was.
pub fn read_checkpoint(stored: Option<Vec<u8>>) -> (r: Result<u64, ParseError>)
    ensures
        r == parse_checkpoint(bytes_of(stored)),
{
    match stored {
        None => Ok(0),
        Some(bytes) => match text_from_utf8(bytes) {
            None => Err(ParseError::BadEncoding),
            Some(text) => match parse_u64(text.as_str()) {
                Some(h) => Ok(h),
                None => Err(ParseError::BadValue),
            },
        },
    }
}

} // verus!
