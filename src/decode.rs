//! Decoding: lines (units) and values (pieces) out of buffered bytes.
use vstd::prelude::*;

use crate::decimal::{
    all_digits, decimal, int_of_text, lemma_decimal, lemma_int_of_signed_decimal, parse_int,
    signed_decimal,
};
use crate::error::{Error, Fault};
use crate::piece::{
    crlf, encode, encode_all, is_tag, pieces_of, lemma_pieces_of_push, Piece, RawPiece, CR, LF, PREFIX_ARRAY,
    PREFIX_BULK_STRING, PREFIX_ERROR, PREFIX_INTEGER, PREFIX_SIMPLE_STRING, SPACE,
};

verus! {

/// How deeply arrays may nest inside one value.
pub const MAX_DEPTH: usize = 32;

/// The first index `k >= i` where `b` stands in `s`.
pub open spec fn find_from(s: Seq<u8>, b: u8, i: int) -> Option<int>
    decreases s.len() - i,
{
    if i < 0 || i >= s.len() {
        None
    } else if s[i] == b {
        Some(i)
    } else {
        find_from(s, b, i + 1)
    }
}

/// The first index `k >= i` where a CR LF pair starts in `s`.
pub open spec fn first_crlf(s: Seq<u8>, i: int) -> Option<int>
    decreases s.len() - i,
{
    if i < 0 || i + 1 >= s.len() {
        None
    } else if s[i] == CR && s[i + 1] == LF {
        Some(i)
    } else {
        first_crlf(s, i + 1)
    }
}

/// The next line of `s` without its CR LF, and how many bytes it takes.
/// Without a CR LF the bytes left are a line only at the end of the stream.
pub open spec fn line_of(s: Seq<u8>, eof: bool) -> Result<(Seq<u8>, nat), Fault> {
    match first_crlf(s, 0) {
        Some(i) => Ok((s.take(i), (i + 2) as nat)),
        None => if !eof {
            Err(Fault::NotReady)
        } else if s.len() == 0 {
            Err(Fault::Eof)
        } else {
            Ok((s, s.len()))
        },
    }
}

/// The value of an error line: the kind up to the first space, the detail after it.
pub open spec fn error_piece(c: Seq<u8>) -> Piece {
    match find_from(c, SPACE, 0) {
        Some(i) => Piece::Error(c.take(i), c.skip(i + 1)),
        None => Piece::Error(c, Seq::empty()),
    }
}

/// Decodes one value from the front of `s`, with arrays nested at most
/// `depth` deep: the value and the number of bytes it takes.
pub open spec fn parse(s: Seq<u8>, eof: bool, depth: nat) -> Result<(Piece, nat), Fault>
    decreases depth, 0nat, 0nat,
{
    match line_of(s, eof) {
        Err(f) => Err(f),
        Ok((line, n)) => if line.len() == 0 || !is_tag(line[0]) {
            Err(Fault::BrokenProtocol)
        } else {
            let tag = line[0];
            let c = line.skip(1);
            if tag == PREFIX_SIMPLE_STRING {
                Ok((Piece::Simple(c), n))
            } else if tag == PREFIX_ERROR {
                Ok((error_piece(c), n))
            } else if tag == PREFIX_INTEGER {
                match int_of_text(c) {
                    Some(v) => Ok((Piece::Integer(v), n)),
                    None => Err(Fault::BrokenProtocol),
                }
            } else if tag == PREFIX_BULK_STRING {
                match int_of_text(c) {
                    None => Err(Fault::BrokenProtocol),
                    Some(len) => if len == -1 {
                        Ok((Piece::Null, n))
                    } else if len < 0 {
                        Err(Fault::BrokenProtocol)
                    } else {
                        match line_of(s.skip(n as int), eof) {
                            Err(f) => Err(f),
                            Ok((payload, m)) => if payload.len() > 0 && is_tag(payload[0]) {
                                Err(Fault::BrokenProtocol)
                            } else if payload.len() != len {
                                Err(Fault::BrokenProtocol)
                            } else {
                                Ok((Piece::Bulk(payload), n + m))
                            },
                        }
                    },
                }
            } else {
                match int_of_text(c) {
                    None => Err(Fault::BrokenProtocol),
                    Some(count) => if count < 0 || depth == 0 {
                        Err(Fault::BrokenProtocol)
                    } else {
                        match parse_items(s.skip(n as int), eof, (depth - 1) as nat, count as nat) {
                            Err(f) => Err(f),
                            Ok((items, m)) => Ok((Piece::Array(items), n + m)),
                        }
                    },
                }
            }
        },
    }
}

/// Decodes `count` values one after the other from the front of `s`.
pub open spec fn parse_items(s: Seq<u8>, eof: bool, depth: nat, count: nat) -> Result<
    (Seq<Piece>, nat),
    Fault,
>
    decreases depth, 1nat, count,
{
    if count == 0 {
        Ok((Seq::empty(), 0))
    } else {
        match parse_items(s, eof, depth, (count - 1) as nat) {
            Err(f) => Err(f),
            Ok((items, k)) => match parse(s.skip(k as int), eof, depth) {
                Err(f) => Err(f),
                Ok((p, m)) => Ok((items.push(p), k + m)),
            },
        }
    }
}

/// Once decoding fails, decoding more values fails the same way.
pub proof fn lemma_parse_items_err(s: Seq<u8>, eof: bool, depth: nat, k: nat, count: nat)
    requires
        k <= count,
        parse_items(s, eof, depth, k) is Err,
    ensures
        parse_items(s, eof, depth, count) == parse_items(s, eof, depth, k),
    decreases count,
{
    if k < count {
        lemma_parse_items_err(s, eof, depth, k, (count - 1) as nat);
    }
}

/// A line that starts with a tag byte: the tag, and what follows it.
pub struct LeadingUnit {
    pub prefix_char: u8,
    pub data: Vec<u8>,
}

impl LeadingUnit {
    /// The content of the line read as a signed decimal integer.
    pub fn read_int(&self) -> (r: Option<i64>)
        ensures
            int_of_text(self.data@) == match r {
                Some(v) => Some(v as int),
                None => None::<int>,
            },
    {
        parse_int(self.data.as_slice())
    }
}

/// One line of input, without its CR LF.
pub enum Unit {
    Leading(LeadingUnit),
    Payload(Vec<u8>),
}

impl Unit {
    /// The bytes of the line.
    pub open spec fn line(&self) -> Seq<u8> {
        match self {
            Unit::Leading(l) => seq![l.prefix_char] + l.data@,
            Unit::Payload(d) => d@,
        }
    }

    /// A line is leading exactly when it starts with a tag byte.
    pub open spec fn well_formed(&self) -> bool {
        match self {
            Unit::Leading(l) => is_tag(l.prefix_char),
            Unit::Payload(d) => d@.len() == 0 || !is_tag(d@[0]),
        }
    }
}

/// A copy of `buf[a..b]`.
pub fn copy_range(buf: &[u8], a: usize, b: usize) -> (r: Vec<u8>)
    requires
        a <= b <= buf.len(),
    ensures
        r@ == buf@.subrange(a as int, b as int),
{
    let mut out: Vec<u8> = Vec::new();
    let mut i: usize = a;
    while i < b
        invariant
            a <= i <= b,
            b <= buf.len(),
            out@ == buf@.subrange(a as int, i as int),
        decreases b - i,
    {
        out.push(buf[i]);
        assert(buf@.subrange(a as int, i as int + 1) =~= buf@.subrange(a as int, i as int).push(
            buf@[i as int],
        ));
        i = i + 1;
    }
    out
}

/// Classifies the line `buf[a..b]`.
fn classify(buf: &[u8], a: usize, b: usize) -> (r: Unit)
    requires
        a <= b <= buf.len(),
    ensures
        r.well_formed(),
        r.line() == buf@.subrange(a as int, b as int),
{
    if b > a && (buf[a] == PREFIX_SIMPLE_STRING || buf[a] == PREFIX_ERROR || buf[a]
        == PREFIX_INTEGER || buf[a] == PREFIX_BULK_STRING || buf[a] == PREFIX_ARRAY) {
        let data = copy_range(buf, a + 1, b);
        let r = Unit::Leading(LeadingUnit { prefix_char: buf[a], data });
        assert(r.line() =~= buf@.subrange(a as int, b as int));
        r
    } else {
        let data = copy_range(buf, a, b);
        Unit::Payload(data)
    }
}

impl RawPiece {
    /// Reads the line that starts at `pos`; on success also returns where the
    /// next line starts.
    pub fn read_unit(buf: &[u8], pos: usize, eof: bool) -> (r: Result<(Unit, usize), Error>)
        requires
            pos <= buf.len(),
        ensures
            match r {
                Ok((u, end)) => pos <= end <= buf.len() && u.well_formed() && line_of(
                    buf@.skip(pos as int),
                    eof,
                ) == Ok::<(Seq<u8>, nat), Fault>((u.line(), (end - pos) as nat)),
                Err(e) => line_of(buf@.skip(pos as int), eof) == Err::<(Seq<u8>, nat), Fault>(e.fault()),
            },
    {
        let n = buf.len();
        let ghost s = buf@.skip(pos as int);
        let mut i: usize = pos;
        while i < n && i + 1 < n
            invariant
                pos <= i <= n,
                n == buf.len(),
                s == buf@.skip(pos as int),
                first_crlf(s, 0) == first_crlf(s, i - pos),
            decreases n - i,
        {
            if buf[i] == CR && buf[i + 1] == LF {
                let u = classify(buf, pos, i);
                assert(s.take(i - pos) =~= buf@.subrange(pos as int, i as int));
                return Ok((u, i + 2));
            }
            i = i + 1;
        }
        if !eof {
            return Err(Error::NotReady);
        }
        if pos == n {
            return Err(Error::EOF);
        }
        let u = classify(buf, pos, n);
        assert(s =~= buf@.subrange(pos as int, n as int));
        Ok((u, n))
    }

    /// The position of the first space in `data`.
    pub fn space_pos(data: &[u8]) -> (r: Option<usize>)
        ensures
            r matches Some(i) ==> i < data.len(),
            find_from(data@, SPACE, 0) == match r {
                Some(i) => Some(i as int),
                None => None::<int>,
            },
    {
        let mut i: usize = 0;
        while i < data.len()
            invariant
                0 <= i <= data.len(),
                find_from(data@, SPACE, 0) == find_from(data@, SPACE, i as int),
            decreases data.len() - i,
        {
            if data[i] == SPACE {
                return Some(i);
            }
            i = i + 1;
        }
        None
    }
}

/// What a decoding call returned, in the terms of `parse`: the value and
/// the number of bytes after `pos` that it took.
pub open spec fn outcome(r: Result<(RawPiece, usize), Error>, pos: int) -> Result<(Piece, nat), Fault> {
    match r {
        Ok((p, end)) => Ok((p@, (end - pos) as nat)),
        Err(e) => Err(e.fault()),
    }
}

fn broken(msg: &str) -> (r: Error)
    ensures
        r.fault() == Fault::BrokenProtocol,
{
    Error::BrokenProtocol(msg.to_string())
}

/// Decodes the value that starts at `pos`, with arrays nested at most
/// `depth` deep.
fn parse_at(buf: &[u8], pos: usize, eof: bool, depth: usize) -> (r: Result<(RawPiece, usize), Error>)
    requires
        pos <= buf.len(),
    ensures
        r matches Ok((_, end)) ==> pos <= end <= buf.len(),
        outcome(r, pos as int) == parse(buf@.skip(pos as int), eof, depth as nat),
    decreases depth,
{
    let ghost s = buf@.skip(pos as int);
    let (unit, end) = match RawPiece::read_unit(buf, pos, eof) {
        Ok(x) => x,
        Err(e) => return Err(e),
    };
    let lead = match unit {
        Unit::Leading(l) => l,
        Unit::Payload(_) => return Err(broken("missing leading unit")),
    };
    let ghost line = seq![lead.prefix_char] + lead.data@;
    assert(line.skip(1) =~= lead.data@);
    let tag = lead.prefix_char;
    if tag == PREFIX_SIMPLE_STRING {
        Ok((RawPiece::SimpleString { data: lead.data }, end))
    } else if tag == PREFIX_ERROR {
        let data = lead.data;
        match RawPiece::space_pos(data.as_slice()) {
            Some(at) => {
                let typ = copy_range(data.as_slice(), 0, at);
                let cause = copy_range(data.as_slice(), at + 1, data.len());
                assert(typ@ =~= data@.take(at as int));
                assert(cause@ =~= data@.skip(at + 1));
                Ok((RawPiece::Error { typ, cause }, end))
            },
            None => Ok((RawPiece::Error { typ: data, cause: Vec::new() }, end)),
        }
    } else if tag == PREFIX_INTEGER {
        match lead.read_int() {
            Some(v) => Ok((RawPiece::Integer(v), end)),
            None => Err(broken("invalid integer")),
        }
    } else if tag == PREFIX_BULK_STRING {
        let len = match lead.read_int() {
            Some(v) => v,
            None => return Err(broken("invalid length of bulk string")),
        };
        if len == -1 {
            return Ok((RawPiece::Null, end));
        } else if len < 0 {
            return Err(broken("invalid length given"));
        }
        assert(s.skip(end - pos) =~= buf@.skip(end as int));
        let (payload, end2) = match RawPiece::read_unit(buf, end, eof) {
            Ok(x) => x,
            Err(e) => return Err(e),
        };
        match payload {
            Unit::Leading(_) => Err(broken("missing payload unit")),
            Unit::Payload(data) => {
                if data.len() as u64 != len as u64 {
                    Err(broken("length of payload mismatches"))
                } else {
                    Ok((RawPiece::BulkString { data }, end2))
                }
            },
        }
    } else {
        let count = match lead.read_int() {
            Some(v) => v,
            None => return Err(broken("invalid length of array")),
        };
        if count < 0 {
            return Err(broken("invalid length of array"));
        }
        if depth == 0 {
            return Err(broken("arrays nested too deep"));
        }
        let ghost rest = buf@.skip(end as int);
        assert(s.skip(end - pos) =~= rest);
        let ghost whole = match parse_items(rest, eof, (depth - 1) as nat, count as nat) {
            Err(f) => Err(f),
            Ok((items, m)) => Ok((Piece::Array(items), ((end - pos) + m) as nat)),
        };
        assert(parse(s, eof, depth as nat) == whole);
        let mut items: Vec<RawPiece> = Vec::new();
        let mut at = end;
        let mut k: i64 = 0;
        while k < count
            invariant
                0 <= k <= count,
                end <= at <= buf.len(),
                depth > 0,
                rest == buf@.skip(end as int),
                pos <= end,
                s == buf@.skip(pos as int),
                parse(s, eof, depth as nat) == whole,
                whole == match parse_items(rest, eof, (depth - 1) as nat, count as nat) {
                    Err(f) => Err(f),
                    Ok((items, m)) => Ok((Piece::Array(items), ((end - pos) + m) as nat)),
                },
                parse_items(rest, eof, (depth - 1) as nat, k as nat) == Ok::<(Seq<Piece>, nat), Fault>(
                    (pieces_of(items@), (at - end) as nat),
                ),
            decreases count - k,
        {
            assert(rest.skip(at - end) =~= buf@.skip(at as int));
            match parse_at(buf, at, eof, depth - 1) {
                Ok((p, next)) => {
                    proof {
                        lemma_pieces_of_push(items@, p);
                    }
                    items.push(p);
                    at = next;
                },
                Err(e) => {
                    proof {
                        let d = (depth - 1) as nat;
                        assert(parse_items(rest, eof, d, (k + 1) as nat) == Err::<(Seq<Piece>, nat), Fault>(e.fault()));
                        lemma_parse_items_err(rest, eof, d, (k + 1) as nat, count as nat);
                        assert(parse_items(rest, eof, d, count as nat) == Err::<(Seq<Piece>, nat), Fault>(e.fault()));
                    }
                    return Err(e);
                },
            }
            k = k + 1;
        }
        Ok((RawPiece::Array(items), at))
    }
}

/// Decodes one value from the front of `buf`: the value and the number of
/// bytes it takes. `eof` says that no more bytes will follow; without it a
/// value that runs past the end of `buf` gives `NotReady`.
pub fn decode(buf: &[u8], eof: bool) -> (r: Result<(RawPiece, usize), Error>)
    ensures
        r matches Ok((_, n)) ==> n <= buf.len(),
        outcome(r, 0) == parse(buf@, eof, MAX_DEPTH as nat),
{
    assert(buf@.skip(0) =~= buf@);
    parse_at(buf, 0, eof, MAX_DEPTH)
}

pub open spec fn no_byte(s: Seq<u8>, b: u8) -> bool {
    forall|i: int| 0 <= i < s.len() ==> #[trigger] s[i] != b
}

/// A value that reads back as itself: no line of it holds a CR, an error
/// kind holds no space, a bulk string does not start with a tag byte, and
/// arrays nest at most `depth` deep.
pub open spec fn wire_safe(p: Piece, depth: nat) -> bool
    decreases p,
{
    match p {
        Piece::Simple(d) => no_byte(d, CR),
        Piece::Error(k, d) => no_byte(k, CR) && no_byte(k, SPACE) && no_byte(d, CR),
        Piece::Integer(i) => i64::MIN <= i <= i64::MAX,
        Piece::Bulk(d) => no_byte(d, CR) && (d.len() == 0 || !is_tag(d[0])) && d.len()
            <= i64::MAX,
        Piece::Array(items) => depth > 0 && items.len() <= i64::MAX && forall|i: int|
            0 <= i < items.len() ==> wire_safe(#[trigger] items[i], (depth - 1) as nat),
        Piece::Null => true,
    }
}

proof fn lemma_find_skip(s: Seq<u8>, b: u8, i: int, j: int)
    requires
        0 <= i <= j <= s.len(),
        forall|x: int| i <= x < j ==> s[x] != b,
    ensures
        find_from(s, b, i) == find_from(s, b, j),
    decreases j - i,
{
    if i < j {
        lemma_find_skip(s, b, i + 1, j);
    }
}

proof fn lemma_crlf_skip(s: Seq<u8>, i: int, j: int)
    requires
        0 <= i <= j <= s.len(),
        forall|x: int| i <= x < j ==> s[x] != CR,
    ensures
        first_crlf(s, i) == first_crlf(s, j),
    decreases j - i,
{
    if i < j {
        lemma_crlf_skip(s, i + 1, j);
    }
}

/// A line without CR, then CR LF: `line_of` finds exactly that line.
proof fn lemma_line(line: Seq<u8>, rest: Seq<u8>, eof: bool)
    requires
        no_byte(line, CR),
    ensures
        line_of(line + crlf() + rest, eof) == Ok::<(Seq<u8>, nat), Fault>((line, line.len() + 2)),
        (line + crlf() + rest).skip(line.len() as int + 2) == rest,
{
    let s = line + crlf() + rest;
    lemma_crlf_skip(s, 0, line.len() as int);
    assert(s.take(line.len() as int) =~= line);
    assert(s.skip(line.len() as int + 2) =~= rest);
}

proof fn lemma_digits_no_cr(d: Seq<u8>)
    requires
        all_digits(d),
    ensures
        no_byte(d, CR),
        no_byte(d, SPACE),
{
    assert forall|i: int| 0 <= i < d.len() implies #[trigger] d[i] != CR by {
        assert(crate::decimal::is_digit(d[i]));
    }
    assert forall|i: int| 0 <= i < d.len() implies #[trigger] d[i] != SPACE by {
        assert(crate::decimal::is_digit(d[i]));
    }
}

proof fn lemma_parse_encode_simple(d: Seq<u8>, rest: Seq<u8>, eof: bool, depth: nat)
    requires
        wire_safe(Piece::Simple(d), depth),
    ensures
        parse(encode(Piece::Simple(d)) + rest, eof, depth) == Ok::<
            (Piece, nat),
            Fault,
        >((Piece::Simple(d), encode(Piece::Simple(d)).len())),
{
    let p = Piece::Simple(d);
    let s = encode(p) + rest;
    let line = seq![PREFIX_SIMPLE_STRING] + d;
    assert(s =~= line + crlf() + rest);
    lemma_line(line, rest, eof);
    assert(line.skip(1) =~= d);
}

proof fn lemma_parse_encode_error(k: Seq<u8>, d: Seq<u8>, rest: Seq<u8>, eof: bool, depth: nat)
    requires
        wire_safe(Piece::Error(k, d), depth),
    ensures
        parse(encode(Piece::Error(k, d)) + rest, eof, depth) == Ok::<
            (Piece, nat),
            Fault,
        >((Piece::Error(k, d), encode(Piece::Error(k, d)).len())),
{
    let p = Piece::Error(k, d);
    let s = encode(p) + rest;
    if d.len() == 0 {
        let line = seq![PREFIX_ERROR] + k;
        assert(s =~= line + crlf() + rest);
        lemma_line(line, rest, eof);
        assert(line.skip(1) =~= k);
        lemma_find_skip(k, SPACE, 0, k.len() as int);
        assert(d =~= Seq::<u8>::empty());
    } else {
        let c = k + seq![SPACE] + d;
        let line = seq![PREFIX_ERROR] + c;
        assert(s =~= line + crlf() + rest);
        assert forall|i: int| 0 <= i < line.len() implies #[trigger] line[i] != CR by {
            if 1 <= i <= k.len() {
                assert(line[i] == k[i - 1]);
            } else if i > k.len() + 1 {
                assert(line[i] == d[i - k.len() - 2]);
            }
        }
        lemma_line(line, rest, eof);
        assert(line.skip(1) =~= c);
        lemma_find_skip(c, SPACE, 0, k.len() as int);
        assert(c.take(k.len() as int) =~= k);
        assert(c.skip(k.len() as int + 1) =~= d);
    }
}

proof fn lemma_parse_encode_integer(i: int, rest: Seq<u8>, eof: bool, depth: nat)
    requires
        wire_safe(Piece::Integer(i), depth),
    ensures
        parse(encode(Piece::Integer(i)) + rest, eof, depth) == Ok::<
            (Piece, nat),
            Fault,
        >((Piece::Integer(i), encode(Piece::Integer(i)).len())),
{
    let p = Piece::Integer(i);
    let s = encode(p) + rest;
    let t = signed_decimal(i);
    lemma_int_of_signed_decimal(i);
    let line = seq![PREFIX_INTEGER] + t;
    assert(s =~= line + crlf() + rest);
    assert forall|j: int| 0 <= j < line.len() implies #[trigger] line[j] != CR by {
        if j >= 1 {
            if i < 0 {
                lemma_decimal((-i) as nat);
                if j >= 2 {
                    assert(line[j] == decimal((-i) as nat)[j - 2]);
                    assert(crate::decimal::is_digit(decimal((-i) as nat)[j - 2]));
                }
            } else {
                lemma_decimal(i as nat);
                assert(line[j] == decimal(i as nat)[j - 1]);
                assert(crate::decimal::is_digit(decimal(i as nat)[j - 1]));
            }
        }
    }
    lemma_line(line, rest, eof);
    assert(line.skip(1) =~= t);
}

proof fn lemma_parse_encode_bulk(d: Seq<u8>, rest: Seq<u8>, eof: bool, depth: nat)
    requires
        wire_safe(Piece::Bulk(d), depth),
    ensures
        parse(encode(Piece::Bulk(d)) + rest, eof, depth) == Ok::<
            (Piece, nat),
            Fault,
        >((Piece::Bulk(d), encode(Piece::Bulk(d)).len())),
{
    let p = Piece::Bulk(d);
    let s = encode(p) + rest;
    let t = decimal(d.len());
    lemma_decimal(d.len());
    lemma_int_of_signed_decimal(d.len() as int);
    lemma_digits_no_cr(t);
    let line = seq![PREFIX_BULK_STRING] + t;
    let tail = d + crlf() + rest;
    assert(s =~= line + crlf() + tail);
    assert forall|j: int| 0 <= j < line.len() implies #[trigger] line[j] != CR by {
        if j >= 1 {
            assert(line[j] == t[j - 1]);
        }
    }
    lemma_line(line, tail, eof);
    assert(line.skip(1) =~= t);
    lemma_line(d, rest, eof);
    assert(s.skip(line.len() as int + 2) == tail);
}

proof fn lemma_parse_encode_null(rest: Seq<u8>, eof: bool, depth: nat)
    requires
        wire_safe(Piece::Null, depth),
    ensures
        parse(encode(Piece::Null) + rest, eof, depth) == Ok::<
            (Piece, nat),
            Fault,
        >((Piece::Null, encode(Piece::Null).len())),
{
    let p = Piece::Null;
    let s = encode(p) + rest;
    let line = seq![PREFIX_BULK_STRING, PREFIX_ERROR, 49u8];
    assert(s =~= line + crlf() + rest);
    lemma_line(line, rest, eof);
    let c = line.skip(1);
    assert(c =~= seq![45u8] + decimal(1));
    assert(c == signed_decimal(-1));
    lemma_int_of_signed_decimal(-1);
}

/// Decoding the encoding of a value, followed by anything, gives the value
/// back and takes exactly its encoding.
pub proof fn lemma_parse_encode(p: Piece, rest: Seq<u8>, eof: bool, depth: nat)
    requires
        wire_safe(p, depth),
    ensures
        parse(encode(p) + rest, eof, depth) == Ok::<(Piece, nat), Fault>((p, encode(p).len())),
    decreases p,
{
    let s = encode(p) + rest;
    match p {
        Piece::Simple(d) => lemma_parse_encode_simple(d, rest, eof, depth),
        Piece::Error(k, d) => lemma_parse_encode_error(k, d, rest, eof, depth),
        Piece::Integer(i) => lemma_parse_encode_integer(i, rest, eof, depth),
        Piece::Bulk(d) => lemma_parse_encode_bulk(d, rest, eof, depth),
        Piece::Array(items) => {
            let t = decimal(items.len());
            lemma_decimal(items.len());
            lemma_int_of_signed_decimal(items.len() as int);
            lemma_digits_no_cr(t);
            let line = seq![PREFIX_ARRAY] + t;
            let tail = encode_all(items) + rest;
            assert(s =~= line + crlf() + tail);
            assert forall|j: int| 0 <= j < line.len() implies #[trigger] line[j] != CR by {
                if j >= 1 {
                    assert(line[j] == t[j - 1]);
                }
            }
            lemma_line(line, tail, eof);
            assert(line.skip(1) =~= t);
            lemma_parse_encode_all(items, rest, eof, (depth - 1) as nat);
        },
        Piece::Null => lemma_parse_encode_null(rest, eof, depth),
    }
}

/// Decoding the encodings of several values, one after the other, gives
/// them back in order.
pub proof fn lemma_parse_encode_all(items: Seq<Piece>, rest: Seq<u8>, eof: bool, depth: nat)
    requires
        forall|i: int| 0 <= i < items.len() ==> wire_safe(#[trigger] items[i], depth),
    ensures
        parse_items(encode_all(items) + rest, eof, depth, items.len()) == Ok::<
            (Seq<Piece>, nat),
            Fault,
        >((items, encode_all(items).len())),
    decreases items,
{
    if items.len() > 0 {
        let n = items.len() - 1;
        let front = items.subrange(0, n);
        let last = items[n];
        let s = encode_all(items) + rest;
        let tail = encode(last) + rest;
        assert(s =~= encode_all(front) + tail);
        assert forall|i: int| 0 <= i < front.len() implies wire_safe(#[trigger] front[i], depth) by {
            assert(front[i] == items[i]);
        }
        lemma_parse_encode_all(front, tail, eof, depth);
        assert(s.skip(encode_all(front).len() as int) =~= tail);
        lemma_parse_encode(last, rest, eof, depth);
        assert(front.push(last) =~= items);
        assert(encode_all(items) == encode_all(front) + encode(last));
        let k = encode_all(front).len();
        assert(parse_items(s, eof, depth, n as nat) == Ok::<(Seq<Piece>, nat), Fault>((front, k)));
        assert(parse(s.skip(k as int), eof, depth) == Ok::<
            (Piece, nat),
            Fault,
        >((last, encode(last).len())));
        assert(encode_all(items).len() == k + encode(last).len());
        assert(items.len() == (n + 1) as nat);
    } else {
        assert(encode_all(items) + rest =~= rest);
        assert(items =~= Seq::<Piece>::empty());
    }
}

/// A bulk string whose bytes hold no CR or LF, and which does not start
/// with a tag byte, decodes from its encoding to itself.
pub proof fn law_bulk_round_trip(d: Seq<u8>, eof: bool)
    requires
        no_byte(d, CR),
        no_byte(d, LF),
        d.len() == 0 || !is_tag(d[0]),
        d.len() <= i64::MAX,
    ensures
        parse(encode(Piece::Bulk(d)), eof, MAX_DEPTH as nat) == Ok::<(Piece, nat), Fault>(
            (Piece::Bulk(d), encode(Piece::Bulk(d)).len()),
        ),
{
    let e = encode(Piece::Bulk(d));
    assert(e + Seq::<u8>::empty() =~= e);
    lemma_parse_encode(Piece::Bulk(d), Seq::empty(), eof, MAX_DEPTH as nat);
}

/// An array of any length, of values that each read back as themselves,
/// decodes from its encoding to an equal array; the empty array too.
pub proof fn law_array_round_trip(items: Seq<Piece>, eof: bool)
    requires
        items.len() <= i64::MAX,
        forall|i: int|
            0 <= i < items.len() ==> wire_safe(#[trigger] items[i], (MAX_DEPTH - 1) as nat),
    ensures
        parse(encode(Piece::Array(items)), eof, MAX_DEPTH as nat) == Ok::<(Piece, nat), Fault>(
            (Piece::Array(items), encode(Piece::Array(items)).len()),
        ),
{
    let e = encode(Piece::Array(items));
    assert(e + Seq::<u8>::empty() =~= e);
    lemma_parse_encode(Piece::Array(items), Seq::empty(), eof, MAX_DEPTH as nat);
}

/// A bulk string whose declared length differs from the length of its
/// payload line is refused.
pub proof fn law_bulk_length_mismatch(len: int, d: Seq<u8>, rest: Seq<u8>, eof: bool, depth: nat)
    requires
        0 <= len <= i64::MAX,
        len != d.len(),
        no_byte(d, CR),
    ensures
        parse(
            seq![PREFIX_BULK_STRING] + signed_decimal(len) + crlf() + d + crlf() + rest,
            eof,
            depth,
        ) == Err::<(Piece, nat), Fault>(Fault::BrokenProtocol),
{
    let t = signed_decimal(len);
    lemma_int_of_signed_decimal(len);
    lemma_decimal(len as nat);
    lemma_digits_no_cr(t);
    let line = seq![PREFIX_BULK_STRING] + t;
    let tail = d + crlf() + rest;
    let s = seq![PREFIX_BULK_STRING] + signed_decimal(len) + crlf() + d + crlf() + rest;
    assert(s =~= line + crlf() + tail);
    assert forall|j: int| 0 <= j < line.len() implies #[trigger] line[j] != CR by {
        if j >= 1 {
            assert(line[j] == t[j - 1]);
        }
    }
    lemma_line(line, tail, eof);
    assert(line.skip(1) =~= t);
    lemma_line(d, rest, eof);
}

/// A declared bulk length of -1 is the null value, of 0 the empty string,
/// and of any other negative number an error.
pub proof fn law_bulk_special_lengths(len: int, rest: Seq<u8>, eof: bool, depth: nat)
    requires
        i64::MIN <= len < 0,
    ensures
        parse(seq![PREFIX_BULK_STRING] + signed_decimal(-1) + crlf() + rest, eof, depth) == Ok::<
            (Piece, nat),
            Fault,
        >((Piece::Null, 5)),
        parse(seq![PREFIX_BULK_STRING] + signed_decimal(0) + crlf() + crlf() + rest, eof, depth)
            == Ok::<(Piece, nat), Fault>((Piece::Bulk(Seq::empty()), 6)),
        len != -1 ==> parse(seq![PREFIX_BULK_STRING] + signed_decimal(len) + crlf() + rest, eof, depth)
            == Err::<(Piece, nat), Fault>(Fault::BrokenProtocol),
{
    assert(signed_decimal(-1) =~= seq![45u8, 49u8]);
    assert(signed_decimal(0) =~= seq![48u8]);
    let null = encode(Piece::Null) + rest;
    assert(seq![PREFIX_BULK_STRING] + signed_decimal(-1) + crlf() + rest =~= null);
    lemma_parse_encode(Piece::Null, rest, eof, depth);
    let empty = encode(Piece::Bulk(Seq::empty())) + rest;
    assert(seq![PREFIX_BULK_STRING] + signed_decimal(0) + crlf() + crlf() + rest =~= empty);
    lemma_parse_encode(Piece::Bulk(Seq::empty()), rest, eof, depth);
    let t = signed_decimal(len);
    lemma_int_of_signed_decimal(len);
    lemma_decimal((-len) as nat);
    lemma_digits_no_cr(decimal((-len) as nat));
    let line = seq![PREFIX_BULK_STRING] + t;
    assert(seq![PREFIX_BULK_STRING] + t + crlf() + rest =~= line + crlf() + rest);
    assert forall|j: int| 0 <= j < line.len() implies #[trigger] line[j] != CR by {
        if j >= 2 {
            assert(line[j] == decimal((-len) as nat)[j - 2]);
        }
    }
    lemma_line(line, rest, eof);
    assert(line.skip(1) =~= t);
}

} // verus!
