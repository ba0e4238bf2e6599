use vstd::prelude::*;

verus! {

/// Carriage return.
pub const CR: u8 = 13;
/// Line feed: the byte that ends a line on the wire.
pub const LF: u8 = 10;
/// `+`: leads a simple string.
pub const SIMPLE_TAG: u8 = 43;
/// `-`: leads an error, and is the minus sign of a number.
pub const ERROR_TAG: u8 = 45;
/// `:`: leads an integer.
pub const INTEGER_TAG: u8 = 58;
/// `$`: leads a bulk string.
pub const BULK_TAG: u8 = 36;
/// `*`: leads an array.
pub const ARRAY_TAG: u8 = 42;
/// The ASCII digit zero.
pub const ZERO: u8 = 48;
/// The ASCII digit one.
pub const ONE: u8 = 49;

/// Abstract value of a protocol element.
pub enum Value {
    Simple(Seq<u8>),
    Error(Seq<u8>),
    Integer(int),
    Bulk(Seq<u8>),
    Array(Seq<Value>),
    Null,
}

/// A protocol element, used both for requests and for replies.
#[derive(Debug, PartialEq, Eq)]
pub enum Resp {
    /// `+` single-line reply
    Simple(Vec<u8>),
    /// `-` error reply
    Error(Vec<u8>),
    /// `:` integer reply
    Integer(i64),
    /// `$` bulk string
    Bulk(Vec<u8>),
    /// `*` array of elements
    Array(Vec<Resp>),
    /// absent value
    Null,
}

impl View for Resp {
    type V = Value;

    open spec fn view(&self) -> Value
        decreases self,
    {
        match self {
            Resp::Simple(b) => Value::Simple(b@),
            Resp::Error(b) => Value::Error(b@),
            Resp::Integer(n) => Value::Integer(*n as int),
            Resp::Bulk(b) => Value::Bulk(b@),
            Resp::Array(items) => Value::Array(
                Seq::new(
                    items.len() as nat,
                    |i: int|
                        if 0 <= i < items.len() {
                            items[i].view()
                        } else {
                            Value::Null
                        },
                ),
            ),
            Resp::Null => Value::Null,
        }
    }
}

// ---------------------------------------------------------------------------
// Serialization
// ---------------------------------------------------------------------------

/// The two bytes that end every line.
pub open spec fn crlf() -> Seq<u8> {
    seq![CR, LF]
}

/// `-1`, the length that marks an absent bulk string.
pub open spec fn minus_one() -> Seq<u8> {
    seq![ERROR_TAG, ONE]
}

/// Decimal digits of a natural number, most significant first.
pub open spec fn digits_of(n: nat) -> Seq<u8>
    decreases n,
{
    if n < 10 {
        seq![(ZERO + n) as u8]
    } else {
        digits_of(n / 10).push((ZERO + n % 10) as u8)
    }
}

/// Decimal form of an integer, with a leading minus sign when negative.
pub open spec fn decimal(n: int) -> Seq<u8> {
    if n < 0 {
        seq![ERROR_TAG] + digits_of((-n) as nat)
    } else {
        digits_of(n as nat)
    }
}

/// Concatenation of byte strings, in order.
pub open spec fn concat(parts: Seq<Seq<u8>>) -> Seq<u8>
    decreases parts.len(),
{
    if parts.len() == 0 {
        Seq::empty()
    } else {
        concat(parts.drop_last()) + parts.last()
    }
}

/// Wire form of a value.
pub open spec fn encode(v: Value) -> Seq<u8>
    decreases v,
{
    match v {
        Value::Simple(b) => seq![SIMPLE_TAG] + b + crlf(),
        Value::Error(b) => seq![ERROR_TAG] + b + crlf(),
        Value::Integer(n) => seq![INTEGER_TAG] + decimal(n) + crlf(),
        Value::Bulk(b) => seq![BULK_TAG] + decimal(b.len() as int) + crlf() + b + crlf(),
        Value::Array(items) => seq![ARRAY_TAG] + decimal(items.len() as int) + crlf() + concat(
            encode_each(items),
        ),
        Value::Null => seq![BULK_TAG] + minus_one() + crlf(),
    }
}

/// Wire forms of the elements of an array, in order.
pub open spec fn encode_each(items: Seq<Value>) -> Seq<Seq<u8>>
    decreases items,
{
    Seq::new(
        items.len(),
        |i: int|
            if 0 <= i < items.len() {
                encode(items[i])
            } else {
                Seq::empty()
            },
    )
}

/// Appends `b` to `out`.
pub fn append_bytes(out: &mut Vec<u8>, b: &[u8])
    ensures
        final(out)@ == old(out)@ + b@,
{
    let mut i: usize = 0;
    while i < b.len()
        invariant
            i <= b@.len(),
            out@ == old(out)@ + b@.subrange(0, i as int),
        decreases b@.len() - i,
    {
        out.push(b[i]);
        i = i + 1;
        assert(out@ =~= old(out)@ + b@.subrange(0, i as int));
    }
    assert(b@.subrange(0, b@.len() as int) =~= b@);
}

/// Decimal digits of `n`, most significant first.
pub fn digits(n: u64) -> (r: Vec<u8>)
    ensures
        r@ == digits_of(n as nat),
    decreases n,
{
    if n < 10 {
        vec![ZERO + n as u8]
    } else {
        let mut r = digits(n / 10);
        r.push(ZERO + (n % 10) as u8);
        r
    }
}

/// Decimal form of `n`, with a leading minus sign when negative.
pub fn decimal_bytes(n: i64) -> (r: Vec<u8>)
    ensures
        r@ == decimal(n as int),
{
    if n < 0 {
        let magnitude: u64 = (0i128 - n as i128) as u64;
        let d = digits(magnitude);
        let mut r = vec![ERROR_TAG];
        append_bytes(&mut r, d.as_slice());
        r
    } else {
        digits(n as u64)
    }
}

impl Resp {
    /// Appends the wire form of this value to `out`.
    pub fn write_to(&self, out: &mut Vec<u8>)
        ensures
            final(out)@ == old(out)@ + encode(self@),
        decreases self,
    {
        let ghost before = out@;
        match self {
            Resp::Simple(b) => {
                out.push(SIMPLE_TAG);
                append_bytes(out, b.as_slice());
                out.push(CR);
                out.push(LF);
                assert(out@ =~= before + encode(self@));
            },
            Resp::Error(b) => {
                out.push(ERROR_TAG);
                append_bytes(out, b.as_slice());
                out.push(CR);
                out.push(LF);
                assert(out@ =~= before + encode(self@));
            },
            Resp::Integer(n) => {
                out.push(INTEGER_TAG);
                let d = decimal_bytes(*n);
                append_bytes(out, d.as_slice());
                out.push(CR);
                out.push(LF);
                assert(out@ =~= before + encode(self@));
            },
            Resp::Bulk(b) => {
                out.push(BULK_TAG);
                let d = digits(b.len() as u64);
                append_bytes(out, d.as_slice());
                out.push(CR);
                out.push(LF);
                append_bytes(out, b.as_slice());
                out.push(CR);
                out.push(LF);
                assert(out@ =~= before + encode(self@));
            },
            Resp::Array(items) => {
                out.push(ARRAY_TAG);
                let d = digits(items.len() as u64);
                append_bytes(out, d.as_slice());
                out.push(CR);
                out.push(LF);
                let ghost start = out@;
                assert(start =~= before + (seq![ARRAY_TAG] + decimal(items@.len() as int) + crlf()));
                let ghost parts = encode_each(self@->Array_0);
                let mut i: usize = 0;
                while i < items.len()
                    invariant
                        self is Array,
                        self->Array_0 == *items,
                        i <= items@.len(),
                        parts.len() == items@.len(),
                        forall|j: int| 0 <= j < items@.len() ==> #[trigger] parts[j] == encode(items[j]@),
                        out@ == start + concat(parts.subrange(0, i as int)),
                    decreases items@.len() - i,
                {
                    proof {
                        vstd::std_specs::vec::axiom_vec_index_decreases(*items, i as int);
                        assert(self->Array_0 == *items);
                        assert(decreases_to!(*self => self->Array_0));
                        assert(decreases_to!(*self => items[i as int]));
                    }
                    items[i].write_to(out);
                    proof {
                        let pre = parts.subrange(0, i as int);
                        let post = parts.subrange(0, i + 1);
                        assert(post.drop_last() =~= pre);
                        assert(post.last() == encode(items[i as int]@));
                    }
                    i = i + 1;
                }
                proof {
                    assert(parts.subrange(0, items@.len() as int) =~= parts);

                }
                assert(out@ =~= before + encode(self@));
            },
            Resp::Null => {
                out.push(BULK_TAG);
                out.push(ERROR_TAG);
                out.push(ONE);
                out.push(CR);
                out.push(LF);
                assert(out@ =~= before + encode(self@));
            },
        }
    }

    /// The wire form of this value.
    pub fn serialize(&self) -> (r: Vec<u8>)
        ensures
            r@ == encode(self@),
    {
        let mut out: Vec<u8> = Vec::new();
        self.write_to(&mut out);
        assert(out@ =~= encode(self@));
        out
    }
}


// ---------------------------------------------------------------------------
// Parsing
// ---------------------------------------------------------------------------

/// Whether `b` is an ASCII decimal digit.
pub open spec fn is_digit(b: u8) -> bool {
    ZERO <= b <= ZERO + 9
}

/// Length of the run of ASCII digits that starts at index `i` of `s`.
pub open spec fn digit_run(s: Seq<u8>, i: int) -> nat
    decreases s.len() - i,
{
    if 0 <= i < s.len() && is_digit(s[i]) {
        1 + digit_run(s, i + 1)
    } else {
        0
    }
}

/// Value of a string of decimal digits, most significant first.
pub open spec fn digits_value(d: Seq<u8>) -> nat
    decreases d.len(),
{
    if d.len() == 0 {
        0
    } else {
        digits_value(d.drop_last()) * 10 + (d.last() - ZERO) as nat
    }
}

/// The number written at the start of `s`: an optional `+` or `-`, then the
/// run of digits that follows it. There is none when `s` starts with neither
/// a sign nor a digit; a lone sign reads as zero.
pub open spec fn leading_number(s: Seq<u8>) -> Option<int> {
    let signed = s.len() > 0 && (s[0] == SIMPLE_TAG || s[0] == ERROR_TAG);
    let start: int = if signed { 1 } else { 0 };
    let run = digit_run(s, start);
    if start + run == 0 {
        None
    } else {
        let m = digits_value(s.subrange(start, start + run)) as int;
        Some(if signed && s[0] == ERROR_TAG { -m } else { m })
    }
}

/// The leading number of `s`, where it fits in an `i64`.
pub open spec fn leading_i64(s: Seq<u8>) -> Option<i64> {
    match leading_number(s) {
        Some(n) => if i64::MIN <= n <= i64::MAX {
            Some(n as i64)
        } else {
            None
        },
        None => None,
    }
}

/// Relies on `atoi::atoi::<i64>`: an optional sign, then the digits after it
/// (further bytes are ignored); no value when the text starts with neither a
/// sign nor a digit, or when the number does not fit in an `i64`.
#[verifier::external_body]
fn read_i64(text: &[u8]) -> (r: Option<i64>)
    ensures
        r == leading_i64(text@),
{
    atoi::atoi::<i64>(text)
}

/// Index just past the first line feed at or after index `i`, if there is one.
pub open spec fn line_end(s: Seq<u8>, i: int) -> Option<int>
    decreases s.len() - i,
{
    if i < 0 || i >= s.len() {
        None
    } else if s[i] == LF {
        Some(i + 1)
    } else {
        line_end(s, i + 1)
    }
}

/// What reading one line at an index of the input gives.
pub enum Line {
    /// A line that ends just before this index.
    Complete(int),
    /// Nothing: the input is closed and exhausted.
    Eof,
    /// More input is needed.
    Pending,
}

/// Reads one line at index `i`: up to and including the next line feed; when
/// the input is `closed`, the rest of it, or nothing at its end.
pub open spec fn next_line(s: Seq<u8>, i: int, closed: bool) -> Line {
    match line_end(s, i) {
        Some(e) => Line::Complete(e),
        None => if !closed {
            Line::Pending
        } else if i < s.len() {
            Line::Complete(s.len() as int)
        } else {
            Line::Eof
        },
    }
}

/// The bytes of `s` from `from` up to, not including, the last two bytes
/// before `end` (the line terminator); empty when there are none.
pub open spec fn body(s: Seq<u8>, from: int, end: int) -> Seq<u8> {
    if end - 2 > from {
        s.subrange(from, end - 2)
    } else {
        Seq::empty()
    }
}

/// A bulk element whose header line is `s[start..end]`: absent when the
/// length reads `-1`, else the payload line after it.
pub open spec fn bulk_after(s: Seq<u8>, start: int, end: int, closed: bool) -> Option<(Value, int)> {
    if body(s, start + 1, end) == minus_one() {
        Some((Value::Null, end))
    } else {
        match next_line(s, end, closed) {
            Line::Pending => None,
            Line::Eof => Some((Value::Null, end)),
            Line::Complete(e) => Some((Value::Bulk(body(s, end, e)), e)),
        }
    }
}

/// One array element at index `p`, read as a bulk string.
pub open spec fn element_at(s: Seq<u8>, p: int, closed: bool) -> Option<(Value, int)> {
    match next_line(s, p, closed) {
        Line::Pending => None,
        Line::Eof => Some((Value::Null, p)),
        Line::Complete(e) => bulk_after(s, p, e, closed),
    }
}

/// `k` array elements read one after another from index `p`.
pub open spec fn elements(s: Seq<u8>, p: int, k: nat, closed: bool) -> Option<(Seq<Value>, int)>
    decreases k,
{
    if k == 0 {
        Some((Seq::empty(), p))
    } else {
        match elements(s, p, (k - 1) as nat, closed) {
            None => None,
            Some((vs, q)) => match element_at(s, q, closed) {
                None => None,
                Some((v, r)) => Some((vs.push(v), r)),
            },
        }
    }
}

/// The element count of an array header: its number, or zero where it
/// has none, is negative or does not fit in an `i32`.
pub open spec fn count_of(b: Seq<u8>) -> nat {
    match leading_i64(b) {
        Some(n) => if 0 < n <= i32::MAX {
            n as nat
        } else {
            0
        },
        None => 0,
    }
}

/// The value at the start of `s`, with the number of bytes it takes; none
/// when more input is needed. A closed, exhausted input reads as `Null`.
pub open spec fn decode(s: Seq<u8>, closed: bool) -> Option<(Value, int)> {
    match next_line(s, 0, closed) {
        Line::Pending => None,
        Line::Eof => Some((Value::Null, 0)),
        Line::Complete(e) => {
            let tag = s[0];
            let b = body(s, 1, e);
            if tag == SIMPLE_TAG {
                Some((Value::Simple(b), e))
            } else if tag == ERROR_TAG {
                Some((Value::Error(b), e))
            } else if tag == INTEGER_TAG {
                Some(
                    (
                        Value::Integer(
                            match leading_i64(b) {
                                Some(n) => n as int,
                                None => 0,
                            },
                        ),
                        e,
                    ),
                )
            } else if tag == BULK_TAG {
                bulk_after(s, 0, e, closed)
            } else if tag == ARRAY_TAG {
                match elements(s, e, count_of(b), closed) {
                    None => None,
                    Some((vs, q)) => Some((Value::Array(vs), q)),
                }
            } else {
                Some((Value::Null, e))
            }
        },
    }
}

/// Views of a sequence of elements.
pub open spec fn views(items: Seq<Resp>) -> Seq<Value> {
    Seq::new(items.len(), |i: int| items[i]@)
}

/// Whether an executable parse outcome is the abstract one.
pub open spec fn outcome_is(r: Option<(Resp, usize)>, o: Option<(Value, int)>) -> bool {
    match o {
        None => r is None,
        Some((v, n)) => match r {
            Some((x, m)) => x@ == v && m == n,
            None => false,
        },
    }
}

proof fn lemma_line_end_bounds(s: Seq<u8>, i: int)
    ensures
        line_end(s, i) matches Some(e) ==> 0 <= i < e <= s.len() && s[e - 1] == LF,
    decreases s.len() - i,
{
    if 0 <= i < s.len() && s[i] != LF {
        lemma_line_end_bounds(s, i + 1);
    }
}

proof fn lemma_next_line_bounds(s: Seq<u8>, i: int, closed: bool)
    requires
        0 <= i <= s.len(),
    ensures
        next_line(s, i, closed) matches Line::Complete(e) ==> i < e <= s.len(),
        next_line(s, i, closed) is Eof ==> i == s.len(),
{
    lemma_line_end_bounds(s, i);
}

/// Outcome of reading one line.
pub enum LineRead {
    Complete(usize),
    Eof,
    Pending,
}

impl View for LineRead {
    type V = Line;

    open spec fn view(&self) -> Line {
        match self {
            LineRead::Complete(e) => Line::Complete(*e as int),
            LineRead::Eof => Line::Eof,
            LineRead::Pending => Line::Pending,
        }
    }
}

/// Reads one line of `buf` at index `i`.
fn read_line(buf: &[u8], i: usize, closed: bool) -> (r: LineRead)
    requires
        i <= buf@.len(),
    ensures
        r@ == next_line(buf@, i as int, closed),
        r matches LineRead::Complete(e) ==> i < e <= buf@.len(),
        r is Eof ==> i == buf@.len(),
{
    proof {
        lemma_next_line_bounds(buf@, i as int, closed);
    }
    let mut k: usize = i;
    while k < buf.len()
        invariant
            i <= k <= buf@.len(),
            line_end(buf@, i as int) == line_end(buf@, k as int),
        decreases buf@.len() - k,
    {
        if buf[k] == LF {
            return LineRead::Complete(k + 1);
        }
        k = k + 1;
    }
    if !closed {
        LineRead::Pending
    } else if i < buf.len() {
        LineRead::Complete(buf.len())
    } else {
        LineRead::Eof
    }
}

/// Copies `buf[from..end - 2]`, or nothing where that range is empty.
fn line_body(buf: &[u8], from: usize, end: usize) -> (r: Vec<u8>)
    requires
        from <= end <= buf@.len(),
    ensures
        r@ == body(buf@, from as int, end as int),
{
    let mut r: Vec<u8> = Vec::new();
    if end >= 2 && end - 2 > from {
        let mut k: usize = from;
        while k < end - 2
            invariant
                from <= k <= end - 2,
                end <= buf@.len(),
                r@ == buf@.subrange(from as int, k as int),
            decreases end - 2 - k,
        {
            r.push(buf[k]);
            k = k + 1;
            assert(r@ =~= buf@.subrange(from as int, k as int));
        }
    } else {
        assert(r@ =~= body(buf@, from as int, end as int));
    }
    r
}

/// Whether `b` reads `-1`.
fn is_minus_one(b: &Vec<u8>) -> (r: bool)
    ensures
        r == (b@ == minus_one()),
{
    if b.len() == 2 && b[0] == ERROR_TAG && b[1] == ONE {
        assert(b@ =~= minus_one());
        true
    } else {
        false
    }
}

/// A bulk element whose header line is `buf[start..end]`.
fn read_bulk_after(buf: &[u8], start: usize, end: usize, closed: bool) -> (r: Option<(Resp, usize)>)
    requires
        start < end <= buf@.len(),
    ensures
        outcome_is(r, bulk_after(buf@, start as int, end as int, closed)),
        r matches Some((_, q)) ==> end <= q <= buf@.len(),
{
    let len = line_body(buf, start + 1, end);
    if is_minus_one(&len) {
        return Some((Resp::Null, end));
    }
    match read_line(buf, end, closed) {
        LineRead::Pending => None,
        LineRead::Eof => Some((Resp::Null, end)),
        LineRead::Complete(e) => Some((Resp::Bulk(line_body(buf, end, e)), e)),
    }
}

/// One array element at index `p`.
fn read_element(buf: &[u8], p: usize, closed: bool) -> (r: Option<(Resp, usize)>)
    requires
        p <= buf@.len(),
    ensures
        outcome_is(r, element_at(buf@, p as int, closed)),
        r matches Some((_, q)) ==> p <= q <= buf@.len(),
{
    match read_line(buf, p, closed) {
        LineRead::Pending => None,
        LineRead::Eof => Some((Resp::Null, p)),
        LineRead::Complete(e) => read_bulk_after(buf, p, e, closed),
    }
}

proof fn lemma_elements_stuck(s: Seq<u8>, p: int, k: nat, m: nat, closed: bool)
    requires
        k <= m,
        elements(s, p, k, closed) is None,
    ensures
        elements(s, p, m, closed) is None,
    decreases m - k,
{
    if k < m {
        lemma_elements_stuck(s, p, k, (m - 1) as nat, closed);
    }
}

impl Resp {
    /// Reads one value from the start of `buf`, and gives it with the number
    /// of bytes it takes. `closed` says that no more input will come: a line
    /// that is cut short is then read as it stands, and a missing line as
    /// nothing. Without it, `None` asks for more input.
    pub fn parse(buf: &[u8], closed: bool) -> (r: Option<(Resp, usize)>)
        ensures
            outcome_is(r, decode(buf@, closed)),
            r matches Some((_, n)) ==> n <= buf@.len(),
    {
        let e = match read_line(buf, 0, closed) {
            LineRead::Pending => {
                return None;
            },
            LineRead::Eof => {
                return Some((Resp::Null, 0));
            },
            LineRead::Complete(e) => e,
        };
        let tag = buf[0];
        let b = line_body(buf, 1, e);
        if tag == SIMPLE_TAG {
            Some((Resp::Simple(b), e))
        } else if tag == ERROR_TAG {
            Some((Resp::Error(b), e))
        } else if tag == INTEGER_TAG {
            let n = match read_i64(b.as_slice()) {
                Some(n) => n,
                None => 0,
            };
            Some((Resp::Integer(n), e))
        } else if tag == BULK_TAG {
            read_bulk_after(buf, 0, e, closed)
        } else if tag == ARRAY_TAG {
            let total: u64 = match read_i64(b.as_slice()) {
                Some(n) => if 0 < n && n <= i32::MAX as i64 {
                    n as u64
                } else {
                    0
                },
                None => 0,
            };
            assert(total as nat == count_of(b@));
            let mut items: Vec<Resp> = Vec::new();
            let mut pos: usize = e;
            let mut k: u64 = 0;
            while k < total
                invariant
                    k <= total,
                    e <= pos <= buf@.len(),
                    next_line(buf@, 0, closed) == Line::Complete(e as int),
                    tag == buf@[0],
                    tag == ARRAY_TAG,
                    total as nat == count_of(body(buf@, 1, e as int)),
                    elements(buf@, e as int, k as nat, closed) == Some((views(items@), pos as int)),
                decreases total - k,
            {
                match read_element(buf, pos, closed) {
                    None => {
                        proof {
                            assert(elements(buf@, e as int, (k + 1) as nat, closed) is None);
                            lemma_elements_stuck(buf@, e as int, (k + 1) as nat, total as nat, closed);
                        }
                        return None;
                    },
                    Some((x, q)) => {
                        let ghost prev = items@;
                        let ghost xv = x@;
                        items.push(x);
                        pos = q;
                        k = k + 1;
                        assert(views(items@) =~= views(prev).push(xv));
                    },
                }
            }
            let r = Resp::Array(items);
            assert(r@ == Value::Array(views(items@))) by {
                assert(r@->Array_0 =~= views(items@));
            };
            Some((r, pos))
        } else {
            Some((Resp::Null, e))
        }
    }
}


// ---------------------------------------------------------------------------
// Framing round trip
// ---------------------------------------------------------------------------

/// Whether `b` holds no line feed, so that it fits on one line.
pub open spec fn single_line(b: Seq<u8>) -> bool {
    forall|i: int| 0 <= i < b.len() ==> b[i] != LF
}

/// Whether `v` is an element that an array on the wire can carry: a bulk
/// string that fits on one line, or an absent value.
pub open spec fn framable_element(v: Value) -> bool {
    match v {
        Value::Bulk(b) => single_line(b),
        Value::Null => true,
        _ => false,
    }
}

/// Whether the wire form of `v` reads back as `v`: strings fit on one line,
/// integers fit in an `i64`, and arrays, of at most `i32::MAX` elements,
/// hold bulk strings and absent values.
pub open spec fn framable(v: Value) -> bool {
    match v {
        Value::Simple(b) => single_line(b),
        Value::Error(b) => single_line(b),
        Value::Integer(n) => i64::MIN <= n <= i64::MAX,
        Value::Bulk(b) => single_line(b),
        Value::Array(items) => items.len() <= i32::MAX && forall|i: int|
            0 <= i < items.len() ==> framable_element(#[trigger] items[i]),
        Value::Null => true,
    }
}

proof fn lemma_line_end_scan(s: Seq<u8>, i: int, j: int)
    requires
        0 <= i <= j < s.len(),
        s[j] == LF,
        forall|k: int| i <= k < j ==> s[k] != LF,
    ensures
        line_end(s, i) == Some(j + 1),
    decreases j - i,
{
    if i < j {
        lemma_line_end_scan(s, i + 1, j);
    }
}

/// A line `line + CRLF` that stands at index `i` of `s` is read whole.
proof fn lemma_framed_line(s: Seq<u8>, i: int, line: Seq<u8>, closed: bool)
    requires
        0 <= i,
        i + line.len() + 2 <= s.len(),
        s.subrange(i, i + line.len() + 2) == line + crlf(),
        single_line(line),
    ensures
        next_line(s, i, closed) == Line::Complete(i + line.len() + 2),
        line.len() > 0 ==> body(s, i + 1, i + line.len() + 2) == line.subrange(1, line.len() as int),
        body(s, i, i + line.len() + 2) == line,
{
    let j = i + line.len() + 1;
    assert forall|k: int| i <= k < j implies s[k] != LF by {
        assert(s[k] == s.subrange(i, i + line.len() + 2)[k - i]);
        if k - i < line.len() {
            assert((line + crlf())[k - i] == line[k - i]);
        } else {
            assert((line + crlf())[k - i] == CR);
        }
    };
    assert(s[j] == s.subrange(i, i + line.len() + 2)[j - i]);
    assert((line + crlf())[j - i] == LF);
    lemma_line_end_scan(s, i, j);
    assert(s.subrange(i, i + line.len()) =~= line) by {
        assert forall|k: int| 0 <= k < line.len() implies s.subrange(i, i + line.len())[k] == line[k] by {
            assert(s[i + k] == s.subrange(i, i + line.len() + 2)[k]);
            assert((line + crlf())[k] == line[k]);
        };
    };
    if line.len() > 0 {
        assert(s.subrange(i + 1, i + line.len()) =~= line.subrange(1, line.len() as int)) by {
            assert forall|k: int| 0 <= k < line.len() - 1 implies s.subrange(i + 1, i + line.len())[k]
                == line.subrange(1, line.len() as int)[k] by {
                assert(s[i + 1 + k] == s.subrange(i, i + line.len())[k + 1]);
            };
        };
    }
}

proof fn lemma_digits_shape(n: nat)
    ensures
        digits_of(n).len() > 0,
        forall|i: int| 0 <= i < digits_of(n).len() ==> is_digit(#[trigger] digits_of(n)[i]),
        digits_value(digits_of(n)) == n,
    decreases n,
{
    if n >= 10 {
        lemma_digits_shape(n / 10);
        let d = digits_of(n / 10);
        assert(digits_of(n).drop_last() =~= d);
        assert forall|i: int| 0 <= i < digits_of(n).len() implies is_digit(#[trigger] digits_of(n)[i]) by {
            if i < d.len() {
                assert(digits_of(n)[i] == d[i]);
            }
        };
        let c = (ZERO + n % 10) as u8;
        assert(c == ZERO + n % 10);
        assert(digits_of(n).last() == c);
        assert(digits_value(digits_of(n)) == digits_value(d) * 10 + (c - ZERO) as nat);
        assert(n == (n / 10) * 10 + n % 10);
    } else {
        let c = (ZERO + n) as u8;
        assert(c == ZERO + n);
        assert(digits_of(n).drop_last() =~= Seq::<u8>::empty());
        assert(digits_value(digits_of(n)) == digits_value(Seq::<u8>::empty()) * 10 + (c - ZERO) as nat);
    }
}

proof fn lemma_digit_run_all(s: Seq<u8>, i: int)
    requires
        0 <= i <= s.len(),
        forall|k: int| i <= k < s.len() ==> is_digit(#[trigger] s[k]),
    ensures
        digit_run(s, i) == s.len() - i,
    decreases s.len() - i,
{
    if i < s.len() {
        lemma_digit_run_all(s, i + 1);
    }
}

proof fn lemma_decimal_single_line(n: int)
    ensures
        single_line(decimal(n)),
        decimal(n).len() > 0,
        n >= 0 ==> is_digit(decimal(n)[0]),
{
    let m: nat = if n < 0 { (-n) as nat } else { n as nat };
    lemma_digits_shape(m);
    if n < 0 {
        assert forall|i: int| 0 <= i < decimal(n).len() implies decimal(n)[i] != LF by {
            if i > 0 {
                assert(decimal(n)[i] == digits_of(m)[i - 1]);
            }
        };
    } else {
        assert forall|i: int| 0 <= i < decimal(n).len() implies decimal(n)[i] != LF by {
            assert(is_digit(digits_of(m)[i]));
        };
    }
}

/// The decimal form of a number reads back as that number.
proof fn lemma_decimal_reads_back(n: int)
    requires
        i64::MIN <= n <= i64::MAX,
    ensures
        leading_i64(decimal(n)) == Some(n as i64),
{
    let s = decimal(n);
    if n < 0 {
        let d = digits_of((-n) as nat);
        lemma_digits_shape((-n) as nat);
        assert forall|k: int| 1 <= k < s.len() implies is_digit(#[trigger] s[k]) by {
            assert(s[k] == d[k - 1]);
        };
        lemma_digit_run_all(s, 1);
        assert(s.subrange(1, s.len() as int) =~= d);
    } else {
        lemma_digits_shape(n as nat);
        lemma_digit_run_all(s, 0);
        assert(s.subrange(0, s.len() as int) =~= s);
    }
}

proof fn lemma_concat_append(a: Seq<Seq<u8>>, b: Seq<Seq<u8>>)
    ensures
        concat(a + b) == concat(a) + concat(b),
    decreases b.len(),
{
    if b.len() == 0 {
        assert(a + b =~= a);
        assert(concat(b) =~= Seq::<u8>::empty());
        assert(concat(a) + concat(b) =~= concat(a));
    } else {
        lemma_concat_append(a, b.drop_last());
        assert((a + b).drop_last() =~= a + b.drop_last());
        assert(concat(a) + concat(b) =~= concat(a) + concat(b.drop_last()) + b.last());
    }
}

/// A framable array element whose wire form stands at index `q` of `s` is
/// read as that element.
proof fn lemma_element_reads_back(s: Seq<u8>, q: int, v: Value, closed: bool)
    requires
        framable_element(v),
        0 <= q,
        q + encode(v).len() <= s.len(),
        s.subrange(q, q + encode(v).len()) == encode(v),
    ensures
        element_at(s, q, closed) == Some((v, q + encode(v).len())),
{
    match v {
        Value::Bulk(b) => {
            let header = seq![BULK_TAG] + decimal(b.len() as int);
            let hl = header.len();
            lemma_decimal_single_line(b.len() as int);
            assert(single_line(header)) by {
                assert forall|i: int| 0 <= i < header.len() implies header[i] != LF by {
                    if i > 0 {
                        assert(header[i] == decimal(b.len() as int)[i - 1]);
                    }
                };
            };
            assert(encode(v) =~= (header + crlf()) + (b + crlf()));
            assert(s.subrange(q, q + hl + 2) =~= header + crlf()) by {
                assert forall|k: int| 0 <= k < hl + 2 implies s.subrange(q, q + hl + 2)[k] == (header
                    + crlf())[k] by {
                    assert(s[q + k] == s.subrange(q, q + encode(v).len())[k]);
                };
            };
            assert(s.subrange(q + hl + 2, q + hl + 2 + b.len() + 2) =~= b + crlf()) by {
                assert forall|k: int| 0 <= k < b.len() + 2 implies s.subrange(
                    q + hl + 2,
                    q + hl + 2 + b.len() + 2,
                )[k] == (b + crlf())[k] by {
                    assert(s[q + hl + 2 + k] == s.subrange(q, q + encode(v).len())[hl + 2 + k]);
                };
            };
            lemma_framed_line(s, q, header, closed);
            lemma_framed_line(s, q + hl + 2, b, closed);
            assert(header.subrange(1, hl as int) =~= decimal(b.len() as int));
            assert(decimal(b.len() as int)[0] != ERROR_TAG);
            assert(body(s, q + 1, q + hl + 2) != minus_one());
        },
        Value::Null => {
            let header = seq![BULK_TAG] + minus_one();
            assert(encode(v) =~= header + crlf());
            assert(single_line(header)) by {
                assert forall|i: int| 0 <= i < header.len() implies header[i] != LF by {
                    assert(header[i] == BULK_TAG || header[i] == ERROR_TAG || header[i] == ONE);
                };
            };
            lemma_framed_line(s, q, header, closed);
            assert(header.subrange(1, 3) =~= minus_one());
        },
        _ => {},
    }
}



/// Both halves of a concatenation that stands at index `a` of `s` stand there too.
proof fn lemma_split_at(s: Seq<u8>, a: int, x: Seq<u8>, y: Seq<u8>)
    requires
        0 <= a,
        a + x.len() + y.len() <= s.len(),
        s.subrange(a, a + x.len() + y.len()) == x + y,
    ensures
        s.subrange(a, a + x.len()) == x,
        s.subrange(a + x.len(), a + x.len() + y.len()) == y,
{
    assert forall|k: int| 0 <= k < x.len() implies s.subrange(a, a + x.len())[k] == x[k] by {
        assert(s[a + k] == s.subrange(a, a + x.len() + y.len())[k]);
        assert((x + y)[k] == x[k]);
    };
    assert forall|k: int| 0 <= k < y.len() implies s.subrange(a + x.len(), a + x.len() + y.len())[k]
        == y[k] by {
        assert(s[a + x.len() + k] == s.subrange(a, a + x.len() + y.len())[x.len() + k]);
        assert((x + y)[x.len() + k] == y[k]);
    };
    assert(s.subrange(a, a + x.len()) =~= x);
    assert(s.subrange(a + x.len(), a + x.len() + y.len()) =~= y);
}

proof fn lemma_elements_read_back(s: Seq<u8>, q0: int, items: Seq<Value>, k: nat, closed: bool)
    requires
        forall|i: int| 0 <= i < items.len() ==> framable_element(#[trigger] items[i]),
        k <= items.len(),
        0 <= q0,
        q0 + concat(encode_each(items)).len() <= s.len(),
        s.subrange(q0, q0 + concat(encode_each(items)).len()) == concat(encode_each(items)),
    ensures
        elements(s, q0, k, closed) == Some(
            (items.subrange(0, k as int), q0 + concat(encode_each(items).subrange(0, k as int)).len()),
        ),
    decreases k,
{
    let parts = encode_each(items);
    if k == 0 {
        assert(items.subrange(0, 0) =~= Seq::<Value>::empty());
        assert(parts.subrange(0, 0) =~= Seq::<Seq<u8>>::empty());
    } else {
        let j = k - 1;
        lemma_elements_read_back(s, q0, items, (k - 1) as nat, closed);
        let head = parts.subrange(0, j);
        let tail = parts.subrange(j + 1, parts.len() as int);
        let x = parts[j];
        assert(parts =~= head + (seq![x] + tail));
        lemma_concat_append(head, seq![x] + tail);
        lemma_concat_append(seq![x], tail);
        assert(seq![x].drop_last() =~= Seq::<Seq<u8>>::empty());
        assert(concat(Seq::<Seq<u8>>::empty()) =~= Seq::<u8>::empty());
        assert(concat(seq![x]) == concat(Seq::<Seq<u8>>::empty()) + x);
        assert(concat(seq![x]) =~= x);
        let ch = concat(head);
        lemma_split_at(s, q0, ch, x + concat(tail));
        lemma_split_at(s, q0 + ch.len(), x, concat(tail));
        assert(x == encode(items[j]));
        lemma_element_reads_back(s, q0 + ch.len(), items[j], closed);
        assert(parts.subrange(0, k as int).drop_last() =~= head);
        assert(items.subrange(0, k as int) =~= items.subrange(0, j).push(items[j]));
    }
}

/// Framing round trip: the wire form of a framable value reads back as that
/// value, taking exactly its own bytes, whatever follows it and whether or
/// not the input is closed; so serializing what was read gives the bytes back.
pub proof fn lemma_round_trip(v: Value, rest: Seq<u8>, closed: bool)
    requires
        framable(v),
    ensures
        decode(encode(v) + rest, closed) == Some((v, encode(v).len() as int)),
        decode(encode(v), closed) matches Some((w, n)) && encode(w) == encode(v) && n == encode(v).len(),
{
    lemma_round_trip_rest(v, rest, closed);
    lemma_round_trip_rest(v, Seq::empty(), closed);
    assert(encode(v) + Seq::<u8>::empty() =~= encode(v));
}

proof fn lemma_round_trip_rest(v: Value, rest: Seq<u8>, closed: bool)
    requires
        framable(v),
    ensures
        decode(encode(v) + rest, closed) == Some((v, encode(v).len() as int)),
{
    let s = encode(v) + rest;
    let ev = encode(v);
    assert(s.subrange(0, ev.len() as int) =~= ev);
    match v {
        Value::Simple(b) => {
            let line = seq![SIMPLE_TAG] + b;
            assert(ev =~= line + crlf());
            assert(single_line(line)) by {
                assert forall|i: int| 0 <= i < line.len() implies line[i] != LF by {
                    if i > 0 {
                        assert(line[i] == b[i - 1]);
                    }
                };
            };
            lemma_framed_line(s, 0, line, closed);
            assert(line.subrange(1, line.len() as int) =~= b);
        },
        Value::Error(b) => {
            let line = seq![ERROR_TAG] + b;
            assert(ev =~= line + crlf());
            assert(single_line(line)) by {
                assert forall|i: int| 0 <= i < line.len() implies line[i] != LF by {
                    if i > 0 {
                        assert(line[i] == b[i - 1]);
                    }
                };
            };
            lemma_framed_line(s, 0, line, closed);
            assert(line.subrange(1, line.len() as int) =~= b);
        },
        Value::Integer(n) => {
            let line = seq![INTEGER_TAG] + decimal(n);
            assert(ev =~= line + crlf());
            lemma_decimal_single_line(n);
            assert(single_line(line)) by {
                assert forall|i: int| 0 <= i < line.len() implies line[i] != LF by {
                    if i > 0 {
                        assert(line[i] == decimal(n)[i - 1]);
                    }
                };
            };
            lemma_framed_line(s, 0, line, closed);
            assert(line.subrange(1, line.len() as int) =~= decimal(n));
            lemma_decimal_reads_back(n);
        },
        Value::Bulk(b) => {
            lemma_element_reads_back(s, 0, v, closed);
        },
        Value::Null => {
            lemma_element_reads_back(s, 0, v, closed);
        },
        Value::Array(items) => {
            let header = seq![ARRAY_TAG] + decimal(items.len() as int);
            let hl = header.len();
            let c = concat(encode_each(items));
            assert(ev =~= (header + crlf()) + c);
            lemma_decimal_single_line(items.len() as int);
            assert(single_line(header)) by {
                assert forall|i: int| 0 <= i < header.len() implies header[i] != LF by {
                    if i > 0 {
                        assert(header[i] == decimal(items.len() as int)[i - 1]);
                    }
                };
            };
            lemma_split_at(s, 0, header + crlf(), c);
            lemma_framed_line(s, 0, header, closed);
            assert(header.subrange(1, hl as int) =~= decimal(items.len() as int));
            lemma_decimal_reads_back(items.len() as int);
            assert(count_of(decimal(items.len() as int)) == items.len());
            lemma_elements_read_back(s, (hl + 2) as int, items, items.len(), closed);
            assert(items.subrange(0, items.len() as int) =~= items);
            assert(encode_each(items).subrange(0, items.len() as int) =~= encode_each(items));
        },
    }
}


/// Reading a non-empty input takes at least one byte.
pub proof fn lemma_decode_progress(s: Seq<u8>, closed: bool)
    requires
        s.len() > 0,
    ensures
        decode(s, closed) matches Some((_, n)) ==> 0 < n <= s.len(),
{
    lemma_next_line_bounds(s, 0, closed);
    if let Line::Complete(e) = next_line(s, 0, closed) {
        lemma_bulk_after_bounds(s, 0, e, closed);
        if s[0] == ARRAY_TAG {
            let k = count_of(body(s, 1, e));
            lemma_elements_bounds(s, e, k, closed);
        }
    }
}

proof fn lemma_bulk_after_bounds(s: Seq<u8>, start: int, end: int, closed: bool)
    requires
        0 <= start < end <= s.len(),
    ensures
        bulk_after(s, start, end, closed) matches Some((_, q)) ==> end <= q <= s.len(),
        element_at(s, start, closed) matches Some((_, q)) ==> start <= q <= s.len(),
{
    lemma_next_line_bounds(s, end, closed);
    lemma_next_line_bounds(s, start, closed);
    if let Line::Complete(e) = next_line(s, start, closed) {
        lemma_next_line_bounds(s, e, closed);
    }
}

proof fn lemma_elements_bounds(s: Seq<u8>, p: int, k: nat, closed: bool)
    requires
        0 <= p <= s.len(),
    ensures
        elements(s, p, k, closed) matches Some((_, q)) ==> p <= q <= s.len(),
    decreases k,
{
    if k > 0 {
        lemma_elements_bounds(s, p, (k - 1) as nat, closed);
        if let Some((_, q)) = elements(s, p, (k - 1) as nat, closed) {
            lemma_next_line_bounds(s, q, closed);
            if let Line::Complete(e) = next_line(s, q, closed) {
                lemma_bulk_after_bounds(s, q, e, closed);
            }
        }
    }
}

} // verus!
