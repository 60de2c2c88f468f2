//! The text form of a `TilePos`: `d{depth}x{x}y{y}`, followed by `f` when
//! the triangle is flopped, as in `d3x3y5f`.
use vstd::prelude::*;
use vstd::std_specs::iter::IteratorSpec;
use crate::path::{TilePos, TilePosErr, IVec2, tile_pos, lemma_height_facts};

verus! {

/// The value of a decimal digit.
pub open spec fn digit_of(c: char) -> Option<int> {
    if 48 <= (c as int) <= 57 {
        Some((c as int) - 48)
    } else {
        None
    }
}

/// The character of a decimal digit.
pub open spec fn digit_char(d: int) -> char {
    if d == 0 {
        '0'
    } else if d == 1 {
        '1'
    } else if d == 2 {
        '2'
    } else if d == 3 {
        '3'
    } else if d == 4 {
        '4'
    } else if d == 5 {
        '5'
    } else if d == 6 {
        '6'
    } else if d == 7 {
        '7'
    } else if d == 8 {
        '8'
    } else {
        '9'
    }
}

/// The decimal digits of a natural number, most significant first.
pub open spec fn digits(n: nat) -> Seq<char>
    decreases n,
{
    if n < 10 {
        seq![digit_char(n as int)]
    } else {
        digits(n / 10).push(digit_char((n % 10) as int))
    }
}

/// The decimal form of an integer.
pub open spec fn decimal(n: int) -> Seq<char> {
    if n < 0 {
        seq!['-'] + digits((-n) as nat)
    } else {
        digits(n as nat)
    }
}

/// The text form of a position.
pub open spec fn display(p: TilePos) -> Seq<char> {
    seq!['d'] + decimal(p.depth as int) + seq!['x'] + decimal(p.pos.x as int) + seq!['y'] + decimal(
        p.pos.y as int,
    ) + (if p.flop {
        seq!['f']
    } else {
        Seq::empty()
    })
}

/// Reads decimal digits from `i` up to the character `term`, accumulating onto
/// `acc` and failing as soon as the value would exceed `max`: the value and
/// the index after `term`.
pub open spec fn parse_number(s: Seq<char>, i: int, term: char, max: int, acc: int) -> Result<
    (int, int),
    TilePosErr,
>
    decreases s.len() - i,
{
    if i < 0 || i >= s.len() {
        Err(TilePosErr::UnexpectedEndOfString)
    } else if s[i] == term {
        Ok((acc, i + 1))
    } else if acc * 10 > max {
        Err(TilePosErr::OutOfBounds)
    } else {
        match digit_of(s[i]) {
            None => Err(TilePosErr::UnexpectedToken),
            Some(d) => if acc * 10 + d > max {
                Err(TilePosErr::OutOfBounds)
            } else {
                parse_number(s, i + 1, term, max, acc * 10 + d)
            },
        }
    }
}

/// Reads the last number, which runs to the end of the text or to a final
/// `f`: the value and whether the `f` was there.
pub open spec fn parse_last(s: Seq<char>, i: int, acc: int) -> Result<(int, bool), TilePosErr>
    decreases s.len() - i,
{
    if i < 0 || i >= s.len() {
        Ok((acc, false))
    } else if s[i] == 'f' {
        if i + 1 < s.len() {
            Err(TilePosErr::UnexpectedToken)
        } else {
            Ok((acc, true))
        }
    } else if acc * 10 > i32::MAX {
        Err(TilePosErr::OutOfBounds)
    } else {
        match digit_of(s[i]) {
            None => Err(TilePosErr::UnexpectedToken),
            Some(d) => if acc * 10 + d > i32::MAX {
                Err(TilePosErr::OutOfBounds)
            } else {
                parse_last(s, i + 1, acc * 10 + d)
            },
        }
    }
}

/// The position that the text spells, before it is checked for validity.
pub open spec fn parse_raw(s: Seq<char>) -> Result<TilePos, TilePosErr> {
    if s.len() == 0 {
        Err(TilePosErr::UnexpectedEndOfString)
    } else if s[0] != 'd' {
        Err(TilePosErr::UnexpectedToken)
    } else {
        match parse_number(s, 1, 'x', 255, 0) {
            Err(e) => Err(e),
            Ok((depth, i)) => match parse_number(s, i, 'y', i32::MAX as int, 0) {
                Err(e) => Err(e),
                Ok((x, j)) => match parse_last(s, j, 0) {
                    Err(e) => Err(e),
                    Ok((y, flop)) => Ok(tile_pos(depth, x, y, flop)),
                },
            },
        }
    }
}

/// The position that the text spells, or why it spells none.
pub open spec fn parse(s: Seq<char>) -> Result<TilePos, TilePosErr> {
    match parse_raw(s) {
        Err(e) => Err(e),
        Ok(p) => if p.spec_is_valid() {
            Ok(p)
        } else {
            Err(TilePosErr::OutOfBounds)
        },
    }
}

/// Appends a character to a string.
#[verifier::external_body]
pub(crate) fn push_char(s: &mut String, c: char)
    ensures
        final(s)@ == old(s)@.push(c),
{
    s.push(c);
}

/// The characters of a string, in order.
fn chars_of(s: &str) -> (r: Vec<char>)
    ensures
        r@ == s@,
{
    let mut out: Vec<char> = Vec::new();
    let mut chars = s.chars();
    assert(chars.remaining() == s@);
    loop
        invariant
            chars.obeys_prophetic_iter_laws(),
            out@ + chars.remaining() == s@,
        ensures
            out@ == s@,
        decreases s@.len() - out@.len(),
    {
        let next = chars.next();
        match next {
            Some(c) => {
                proof {
                    assert(out@.push(c) + chars.remaining() =~= s@);
                }
                out.push(c);
            },
            None => {
                proof {
                    assert(out@ =~= s@);
                }
                break ;
            },
        }
    }
    out
}

/// The value of a decimal digit, as `char::to_digit(10)` gives it.
fn to_digit(c: char) -> (r: Option<u32>)
    ensures
        match digit_of(c) {
            None => r is None,
            Some(d) => r == Some(d as u32),
        },
{
    if '0' <= c && c <= '9' {
        Some((c as u32) - 48)
    } else {
        None
    }
}

/// The character of a decimal digit.
fn to_char(d: u64) -> (r: char)
    requires
        d < 10,
    ensures
        r == digit_char(d as int),
{
    if d == 0 {
        '0'
    } else if d == 1 {
        '1'
    } else if d == 2 {
        '2'
    } else if d == 3 {
        '3'
    } else if d == 4 {
        '4'
    } else if d == 5 {
        '5'
    } else if d == 6 {
        '6'
    } else if d == 7 {
        '7'
    } else if d == 8 {
        '8'
    } else {
        '9'
    }
}

/// Appends the decimal digits of `n`.
pub fn push_digits(out: &mut String, n: u64)
    ensures
        final(out)@ == old(out)@ + digits(n as nat),
    decreases n,
{
    if n >= 10 {
        push_digits(out, n / 10);
    }
    push_char(out, to_char(n % 10));
    proof {
        if n >= 10 {
            assert(old(out)@ + digits((n / 10) as nat) + seq![digit_char((n % 10) as int)] =~= old(
                out,
            )@ + digits(n as nat));
        } else {
            assert(old(out)@.push(digit_char((n % 10) as int)) =~= old(out)@ + digits(n as nat));
        }
    }
}

/// Appends the decimal form of `n`.
pub fn push_decimal(out: &mut String, n: i64)
    requires
        n > i64::MIN,
    ensures
        final(out)@ == old(out)@ + decimal(n as int),
{
    if n < 0 {
        push_char(out, '-');
        push_digits(out, (-n) as u64);
        proof {
            assert(old(out)@.push('-') + digits((-n) as nat) =~= old(out)@ + decimal(n as int));
        }
    } else {
        push_digits(out, n as u64);
    }
}

impl TilePos {
    /// The text form of this position.
    pub fn to_string(&self) -> (r: String)
        ensures
            r@ == display(*self),
    {
        let mut out = String::new();
        push_char(&mut out, 'd');
        push_decimal(&mut out, self.depth as i64);
        push_char(&mut out, 'x');
        push_decimal(&mut out, self.pos.x as i64);
        push_char(&mut out, 'y');
        push_decimal(&mut out, self.pos.y as i64);
        if self.flop {
            push_char(&mut out, 'f');
        }
        proof {
            assert(out@ =~= display(*self));
        }
        out
    }

    /// Reads a position from its text form.
    pub fn from_str(s: &str) -> (r: Result<TilePos, TilePosErr>)
        ensures
            r == parse(s@),
    {
        let chars = chars_of(s);
        let n = chars.len();
        if n == 0 {
            return Err(TilePosErr::UnexpectedEndOfString);
        }
        if chars[0] != 'd' {
            return Err(TilePosErr::UnexpectedToken);
        }
        let ghost sq = s@;
        let mut depth: u8 = 0;
        let mut i: usize = 1;
        loop
            invariant_except_break
                parse_number(sq, 1, 'x', 255, 0) == parse_number(sq, i as int, 'x', 255, depth as int),
            invariant
                1 <= i <= n,
                n == sq.len(),
                chars@ == sq,
                sq == s@,
                sq.len() > 0 && sq[0] == 'd',
            ensures
                1 <= i <= n,
                parse_number(sq, 1, 'x', 255, 0) == Ok::<(int, int), TilePosErr>((depth as int, i as int)),
            decreases n - i,
        {
            if i >= n {
                return Err(TilePosErr::UnexpectedEndOfString);
            }
            let c = chars[i];
            i += 1;
            if c == 'x' {
                break ;
            }
            depth = match depth.checked_mul(10) {
                Some(v) => v,
                None => return Err(TilePosErr::OutOfBounds),
            };
            let d = match to_digit(c) {
                Some(d) => d as u8,
                None => return Err(TilePosErr::UnexpectedToken),
            };
            depth = match depth.checked_add(d) {
                Some(v) => v,
                None => return Err(TilePosErr::OutOfBounds),
            };
        }
        let ghost after_depth = i as int;
        let mut x: i32 = 0;
        loop
            invariant_except_break
                parse_number(sq, after_depth, 'y', i32::MAX as int, 0) == parse_number(
                    sq,
                    i as int,
                    'y',
                    i32::MAX as int,
                    x as int,
                ),
            invariant
                after_depth <= i <= n,
                n == sq.len(),
                chars@ == sq,
                sq == s@,
                0 <= x,
                parse_number(sq, 1, 'x', 255, 0) == Ok::<(int, int), TilePosErr>((depth as int, after_depth)),
                sq.len() > 0 && sq[0] == 'd',
            ensures
                parse_number(sq, after_depth, 'y', i32::MAX as int, 0) == Ok::<(int, int), TilePosErr>((x as int, i as int)),
                i <= n,
                0 <= x,
            decreases n - i,
        {
            if i >= n {
                return Err(TilePosErr::UnexpectedEndOfString);
            }
            let c = chars[i];
            i += 1;
            if c == 'y' {
                break ;
            }
            x = match x.checked_mul(10) {
                Some(v) => v,
                None => return Err(TilePosErr::OutOfBounds),
            };
            let d = match to_digit(c) {
                Some(d) => d as i32,
                None => return Err(TilePosErr::UnexpectedToken),
            };
            x = match x.checked_add(d) {
                Some(v) => v,
                None => return Err(TilePosErr::OutOfBounds),
            };
        }
        let ghost after_x = i as int;
        let mut y: i32 = 0;
        let mut flop = false;
        loop
            invariant_except_break
                parse_last(sq, after_x, 0) == parse_last(sq, i as int, y as int),
                !flop,
            invariant
                after_x <= i <= n,
                n == sq.len(),
                chars@ == sq,
                sq == s@,
                0 <= y,
                parse_number(sq, 1, 'x', 255, 0) == Ok::<(int, int), TilePosErr>((depth as int, after_depth)),
                parse_number(sq, after_depth, 'y', i32::MAX as int, 0) == Ok::<(int, int), TilePosErr>((x as int, after_x)),
                sq.len() > 0 && sq[0] == 'd',
            ensures
                parse_last(sq, after_x, 0) == Ok::<(int, bool), TilePosErr>((y as int, flop)),
            decreases n - i,
        {
            if i >= n {
                break ;
            }
            let c = chars[i];
            i += 1;
            if c == 'f' {
                if i < n {
                    return Err(TilePosErr::UnexpectedToken);
                }
                flop = true;
                break ;
            }
            y = match y.checked_mul(10) {
                Some(v) => v,
                None => return Err(TilePosErr::OutOfBounds),
            };
            let d = match to_digit(c) {
                Some(d) => d as i32,
                None => return Err(TilePosErr::UnexpectedToken),
            };
            y = match y.checked_add(d) {
                Some(v) => v,
                None => return Err(TilePosErr::OutOfBounds),
            };
        }
        let out = TilePos { depth, pos: IVec2 { x, y }, flop };
        assert(parse_raw(sq) == Ok::<TilePos, TilePosErr>(out));
        if flop && y == i32::MAX {
            // The row would be 2^31, below no depth that a position may have.
            proof {
                lemma_height_facts(depth as nat);
            }
            return Err(TilePosErr::OutOfBounds);
        }
        if !out.is_valid() {
            return Err(TilePosErr::OutOfBounds);
        }
        Ok(out)
    }
}

/// The value of a run of digits read from the front onto `acc`.
pub open spec fn digits_value(acc: int, ds: Seq<char>) -> int
    decreases ds.len(),
{
    if ds.len() == 0 {
        acc
    } else {
        digits_value(acc * 10 + digit_of(ds[0])->0, ds.drop_first())
    }
}

/// Every character is a decimal digit.
pub open spec fn all_digits(ds: Seq<char>) -> bool {
    forall|k: int| 0 <= k < ds.len() ==> (#[trigger] digit_of(ds[k])) is Some
}

proof fn lemma_digits_value_push(acc: int, ds: Seq<char>, c: char)
    requires
        digit_of(c) is Some,
    ensures
        digits_value(acc, ds.push(c)) == digits_value(acc, ds) * 10 + digit_of(c)->0,
    decreases ds.len(),
{
    reveal_with_fuel(digits_value, 2);
    if ds.len() == 0 {
        assert(ds.push(c).drop_first() =~= Seq::<char>::empty());
        assert(ds.push(c)[0] == c);
    } else {
        assert(ds.push(c)[0] == ds[0]);
        assert(ds.push(c).drop_first() =~= ds.drop_first().push(c));
        lemma_digits_value_push(acc * 10 + digit_of(ds[0])->0, ds.drop_first(), c);
    }
}

proof fn lemma_digit_char(d: int)
    requires
        0 <= d < 10,
    ensures
        digit_of(digit_char(d)) == Some(d),
        digit_char(d) != 'x' && digit_char(d) != 'y' && digit_char(d) != 'f',
{
}

/// The digits of a number are digits, spell the number, and are at least one.
pub proof fn lemma_digits_spell(n: nat)
    ensures
        all_digits(digits(n)),
        digits_value(0, digits(n)) == n,
        digits(n).len() >= 1,
        forall|k: int| 0 <= k < digits(n).len() ==> #[trigger] digits(n)[k] != 'x' && digits(n)[k] != 'y'
            && digits(n)[k] != 'f',
    decreases n,
{
    reveal_with_fuel(digits_value, 2);
    if n < 10 {
        lemma_digit_char(n as int);
        assert(digits(n).drop_first() =~= Seq::<char>::empty());
    } else {
        lemma_digits_spell(n / 10);
        let d = (n % 10) as int;
        lemma_digit_char(d);
        lemma_digits_value_push(0, digits(n / 10), digit_char(d));
        assert(digits(n) == digits(n / 10).push(digit_char(d)));
        assert((n / 10) * 10 + d == n);
        assert forall|k: int| 0 <= k < digits(n).len() implies (#[trigger] digit_of(digits(n)[k])) is Some by {
            if k < digits(n / 10).len() {
                assert(digits(n)[k] == digits(n / 10)[k]);
            }
        }
        assert forall|k: int| 0 <= k < digits(n).len() implies #[trigger] digits(n)[k] != 'x' && digits(n)[k]
            != 'y' && digits(n)[k] != 'f' by {
            if k < digits(n / 10).len() {
                assert(digits(n)[k] == digits(n / 10)[k]);
            }
        }
    }
}

proof fn lemma_digits_value_grows(acc: int, ds: Seq<char>)
    requires
        acc >= 0,
        all_digits(ds),
    ensures
        digits_value(acc, ds) >= acc,
    decreases ds.len(),
{
    if ds.len() > 0 {
        assert(digit_of(ds[0]) is Some);
        assert forall|k: int| 0 <= k < ds.drop_first().len() implies (#[trigger] digit_of(ds.drop_first()[k])) is Some by {
            assert(ds.drop_first()[k] == ds[k + 1]);
        }
        lemma_digits_value_grows(acc * 10 + digit_of(ds[0])->0, ds.drop_first());
    }
}

/// Reading a run of digits up to a terminator gives their value.
proof fn lemma_parse_number_digits(s: Seq<char>, i: int, ds: Seq<char>, term: char, max: int, acc: int)
    requires
        0 <= i,
        i + ds.len() < s.len(),
        s.subrange(i, i + ds.len()) == ds,
        s[i + ds.len()] == term,
        all_digits(ds),
        forall|k: int| 0 <= k < ds.len() ==> #[trigger] ds[k] != term,
        acc >= 0,
        digits_value(acc, ds) <= max,
    ensures
        parse_number(s, i, term, max, acc) == Ok::<(int, int), TilePosErr>((digits_value(acc, ds), i + ds.len() + 1)),
    decreases ds.len(),
{
    if ds.len() > 0 {
        assert(s[i] == ds[0]);
        let d = digit_of(ds[0])->0;
        assert(digit_of(ds[0]) is Some);
        let rest = ds.drop_first();
        assert forall|k: int| 0 <= k < rest.len() implies (#[trigger] digit_of(rest[k])) is Some by {
            assert(rest[k] == ds[k + 1]);
        }
        assert forall|k: int| 0 <= k < rest.len() implies #[trigger] rest[k] != term by {
            assert(rest[k] == ds[k + 1]);
        }
        assert(s.subrange(i + 1, i + 1 + rest.len()) =~= rest) by {
            assert forall|k: int| 0 <= k < rest.len() implies s.subrange(i + 1, i + 1 + rest.len())[k] == rest[k] by {
                assert(s.subrange(i, i + ds.len())[k + 1] == ds[k + 1]);
            }
        }
        lemma_digits_value_grows(acc * 10 + d, rest);
        assert(0 <= d < 10);
        lemma_parse_number_digits(s, i + 1, rest, term, max, acc * 10 + d);
    } else {
        assert(s[i] == term);
    }
}

/// Reading the last run of digits, to the end or to a final `f`, gives
/// their value.
proof fn lemma_parse_last_digits(s: Seq<char>, i: int, ds: Seq<char>, flop: bool, acc: int)
    requires
        0 <= i,
        s.len() == i + ds.len() + (if flop { 1int } else { 0 }),
        s.subrange(i, i + ds.len()) == ds,
        flop ==> s[i + ds.len()] == 'f',
        all_digits(ds),
        forall|k: int| 0 <= k < ds.len() ==> #[trigger] ds[k] != 'f',
        acc >= 0,
        digits_value(acc, ds) <= i32::MAX,
    ensures
        parse_last(s, i, acc) == Ok::<(int, bool), TilePosErr>((digits_value(acc, ds), flop)),
    decreases ds.len(),
{
    if ds.len() > 0 {
        assert(s[i] == ds[0]);
        let d = digit_of(ds[0])->0;
        assert(digit_of(ds[0]) is Some);
        let rest = ds.drop_first();
        assert forall|k: int| 0 <= k < rest.len() implies (#[trigger] digit_of(rest[k])) is Some by {
            assert(rest[k] == ds[k + 1]);
        }
        assert forall|k: int| 0 <= k < rest.len() implies #[trigger] rest[k] != 'f' by {
            assert(rest[k] == ds[k + 1]);
        }
        assert(s.subrange(i + 1, i + 1 + rest.len()) =~= rest) by {
            assert forall|k: int| 0 <= k < rest.len() implies s.subrange(i + 1, i + 1 + rest.len())[k] == rest[k] by {
                assert(s.subrange(i, i + ds.len())[k + 1] == ds[k + 1]);
            }
        }
        lemma_digits_value_grows(acc * 10 + d, rest);
        assert(0 <= d < 10);
        lemma_parse_last_digits(s, i + 1, rest, flop, acc * 10 + d);
    }
}

/// Reading the text of a valid position gives the position back.
pub proof fn lemma_parse_display(p: TilePos)
    requires
        p.spec_is_valid(),
    ensures
        parse(display(p)) == Ok::<TilePos, TilePosErr>(p),
{
    crate::path::lemma_height_facts(p.depth as nat);
    let dd = digits(p.depth as nat);
    let dx = digits(p.pos.x as nat);
    let dy = digits(p.pos.y as nat);
    lemma_digits_spell(p.depth as nat);
    lemma_digits_spell(p.pos.x as nat);
    lemma_digits_spell(p.pos.y as nat);
    let s = display(p);
    let fl = if p.flop { seq!['f'] } else { Seq::<char>::empty() };
    assert(s =~= seq!['d'] + dd + seq!['x'] + dx + seq!['y'] + dy + fl);
    let i1: int = 1 + dd.len() as int;
    let i2: int = i1 + 1 + dx.len();
    let i3: int = i2 + 1;
    assert(s.subrange(1, 1 + dd.len() as int) =~= dd);
    assert(s[i1] == 'x');
    assert(s.subrange(i1 + 1, i1 + 1 + dx.len() as int) =~= dx);
    assert(s[i2] == 'y');
    assert(s.subrange(i3, i3 + dy.len() as int) =~= dy);
    if p.flop {
        assert(s[i3 + dy.len()] == 'f');
    }
    lemma_parse_number_digits(s, 1, dd, 'x', 255, 0);
    lemma_parse_number_digits(s, i1 + 1, dx, 'y', i32::MAX as int, 0);
    lemma_parse_last_digits(s, i3, dy, p.flop, 0);
    assert(tile_pos(p.depth as int, p.pos.x as int, p.pos.y as int, p.flop) == p);
}

} // verus!
