use vstd::prelude::*;

verus! {

/// The line terminator.
pub const NEWLINE: u8 = 10;

/// The carriage return that may precede a line terminator.
pub const CARRIAGE_RETURN: u8 = 13;

/// The separator between a record's index and its token.
pub const SPACE: u8 = 32;

/// `line` without one trailing carriage return.
pub open spec fn strip_cr(line: Seq<u8>) -> Seq<u8> {
    if line.len() > 0 && line.last() == CARRIAGE_RETURN {
        line.drop_last()
    } else {
        line
    }
}

/// The finished lines and the line still open after reading the bytes `s`.
pub open spec fn scan(s: Seq<u8>) -> (Seq<Seq<u8>>, Seq<u8>)
    decreases s.len(),
{
    if s.len() == 0 {
        (Seq::empty(), Seq::empty())
    } else {
        let before = scan(s.drop_last());
        if s.last() == NEWLINE {
            (before.0.push(strip_cr(before.1)), Seq::empty())
        } else {
            (before.0, before.1.push(s.last()))
        }
    }
}

/// The lines of `s`: each ends at a line terminator or at the end of `s`,
/// holds no terminator, and loses one trailing carriage return. A final
/// line terminator opens no further line.
pub open spec fn lines_of(s: Seq<u8>) -> Seq<Seq<u8>> {
    let last = scan(s);
    if last.1.len() == 0 {
        last.0
    } else {
        last.0.push(strip_cr(last.1))
    }
}

fn strip_trailing_cr(line: &mut Vec<u8>)
    ensures
        final(line)@ == strip_cr(old(line)@),
{
    let n = line.len();
    if n > 0 && line[n - 1] == CARRIAGE_RETURN {
        let _ = line.pop();
    }
}

/// Splits `bytes` into its lines.
pub fn split_lines(bytes: &[u8]) -> (lines: Vec<Vec<u8>>)
    ensures
        lines@.map_values(|l: Vec<u8>| l@) == lines_of(bytes@),
{
    let mut lines: Vec<Vec<u8>> = Vec::new();
    let mut current: Vec<u8> = Vec::new();
    let mut i: usize = 0;
    assert(bytes@.take(0) =~= Seq::<u8>::empty());
    assert(lines@.map_values(|l: Vec<u8>| l@) =~= Seq::<Seq<u8>>::empty());
    while i < bytes.len()
        invariant
            i <= bytes@.len(),
            lines@.map_values(|l: Vec<u8>| l@) == scan(bytes@.take(i as int)).0,
            current@ == scan(bytes@.take(i as int)).1,
        decreases bytes@.len() - i,
    {
        let b = bytes[i];
        assert(bytes@.take(i + 1).drop_last() =~= bytes@.take(i as int));
        if b == NEWLINE {
            strip_trailing_cr(&mut current);
            let ghost done = lines@.map_values(|l: Vec<u8>| l@);
            lines.push(current);
            current = Vec::new();
            assert(lines@.map_values(|l: Vec<u8>| l@) =~= done.push(strip_cr(scan(bytes@.take(i as int)).1)));
        } else {
            current.push(b);
        }
        i = i + 1;
    }
    assert(bytes@.take(i as int) =~= bytes@);
    if current.len() > 0 {
        strip_trailing_cr(&mut current);
        let ghost done = lines@.map_values(|l: Vec<u8>| l@);
        lines.push(current);
        assert(lines@.map_values(|l: Vec<u8>| l@) =~= done.push(strip_cr(scan(bytes@).1)));
    }
    lines
}

/// The sign that may precede an index.
pub const PLUS: u8 = 43;

/// `b` is an ASCII decimal digit, `0` (48) to `9` (57).
pub open spec fn is_digit(b: u8) -> bool {
    48 <= b <= 57
}

/// The number written by the decimal digits `s`.
pub open spec fn digits_value(s: Seq<u8>) -> int
    decreases s.len(),
{
    if s.len() == 0 {
        0
    } else {
        digits_value(s.drop_last()) * 10 + (s.last() - 48)
    }
}

/// The digits of an index written with an optional leading `+`.
pub open spec fn index_digits(s: Seq<u8>) -> Seq<u8> {
    if s.len() > 0 && s[0] == PLUS {
        s.drop_first()
    } else {
        s
    }
}

/// `s` writes an index: at least one decimal digit after an optional `+`,
/// for a number that fits in a `u64`.
pub open spec fn is_index(s: Seq<u8>) -> bool {
    let d = index_digits(s);
    &&& d.len() > 0
    &&& forall|i: int| 0 <= i < d.len() ==> is_digit(#[trigger] d[i])
    &&& digits_value(d) <= u64::MAX
}

/// `k` is the position of the first space in `s`.
pub open spec fn is_first_space(s: Seq<u8>, k: int) -> bool {
    &&& 0 <= k < s.len()
    &&& s[k] == SPACE
    &&& forall|j: int| 0 <= j < k ==> s[j] != SPACE
}

proof fn lemma_digits_value_grows(s: Seq<u8>, j: int)
    requires
        0 <= j <= s.len(),
        forall|i: int| 0 <= i < s.len() ==> is_digit(#[trigger] s[i]),
    ensures
        0 <= digits_value(s.take(j)) <= digits_value(s),
    decreases s.len(),
{
    if j < s.len() {
        let t = s.drop_last();
        assert(t.take(j) =~= s.take(j));
        lemma_digits_value_grows(t, j);
    } else {
        assert(s.take(j) =~= s);
        if s.len() > 0 {
            lemma_digits_value_grows(s.drop_last(), j - 1);
        }
    }
}

/// The index written by the first `end` bytes of `text`, or `None` where
/// they write none.
fn parse_index(text: &[u8], end: usize) -> (r: Option<u64>)
    requires
        end <= text@.len(),
    ensures
        r == (if is_index(text@.take(end as int)) {
            Some(digits_value(index_digits(text@.take(end as int))) as u64)
        } else {
            None
        }),
        r matches Some(n) ==> n == digits_value(index_digits(text@.take(end as int))),
{
    let ghost whole = text@.take(end as int);
    let start: usize = if end > 0 && text[0] == PLUS {
        1
    } else {
        0
    };
    let ghost d = index_digits(whole);
    assert(d =~= text@.subrange(start as int, end as int));
    if start == end {
        return None;
    }
    let mut value: u64 = 0;
    let mut i: usize = start;
    assert(d.take(0) =~= Seq::<u8>::empty());
    while i < end
        invariant
            start <= i <= end,
            end <= text@.len(),
            d =~= text@.subrange(start as int, end as int),
            d == index_digits(whole),
            whole == text@.take(end as int),
            forall|j: int| 0 <= j < i - start ==> is_digit(#[trigger] d[j]),
            value == digits_value(d.take(i - start)),
        decreases end - i,
    {
        let b = text[i];
        assert(d[i - start] == b);
        if b < 48 || b > 57 {
            return None;
        }
        let digit = (b - 48) as u64;
        assert(d.take(i - start + 1).drop_last() =~= d.take(i - start));
        if value > (u64::MAX - digit) / 10 {
            proof {
                assert(value * 10 + digit > u64::MAX) by (nonlinear_arith)
                    requires
                        value > (u64::MAX - digit) / 10,
                        digit <= 9,
                ;
                if forall|j: int| 0 <= j < d.len() ==> is_digit(#[trigger] d[j]) {
                    lemma_digits_value_grows(d, i - start + 1);
                }
            }
            return None;
        }
        value = value * 10 + digit;
        i = i + 1;
    }
    assert(d.take(d.len() as int) =~= d);
    Some(value)
}

/// Reads a record `<index> <token>`: the index is written before the first
/// space, and the token is everything after that space, further spaces
/// included. `None` where the line has no space or no index before it.
pub fn pair_process(line: &[u8]) -> (r: Option<(u64, Vec<u8>)>)
    ensures
        match r {
            Some((index, token)) => exists|k: int|
                #[trigger] is_first_space(line@, k) && is_index(line@.take(k)) && index == digits_value(
                    index_digits(line@.take(k)),
                ) && token@ == line@.skip(k + 1),
            None => forall|k: int| #[trigger] is_first_space(line@, k) ==> !is_index(line@.take(k)),
        },
{
    let mut k: usize = 0;
    while k < line.len() && line[k] != SPACE
        invariant
            k <= line@.len(),
            forall|j: int| 0 <= j < k ==> line@[j] != SPACE,
        decreases line@.len() - k,
    {
        k = k + 1;
    }
    if k == line.len() {
        return None;
    }
    assert(is_first_space(line@, k as int));
    assert forall|m: int| #[trigger] is_first_space(line@, m) implies m == k by {
        if m < k {
            assert(line@[m] != SPACE);
        } else if m > k {
            assert(line@[k as int] != SPACE);
        }
    }
    let mut token: Vec<u8> = Vec::new();
    let mut j: usize = k + 1;
    while j < line.len()
        invariant
            k < j <= line@.len(),
            token@ == line@.subrange(k + 1, j as int),
            is_first_space(line@, k as int),
            forall|m: int| #[trigger] is_first_space(line@, m) ==> m == k,
        decreases line@.len() - j,
    {
        token.push(line[j]);
        j = j + 1;
    }
    assert(token@ =~= line@.skip(k + 1));
    let index = match parse_index(line, k) {
        Some(n) => n,
        None => {
            return None;
        },
    };
    assert(is_first_space(line@, k as int) && is_index(line@.take(k as int)) && index == digits_value(
        index_digits(line@.take(k as int)),
    ) && token@ == line@.skip(k + 1));
    Some((index, token))
}

} // verus!
