use vstd::prelude::*;

verus! {

pub open spec fn digit_char(d: int) -> char {
    if d == 0 {
        '0'
    } else if d == 1 {
        '1'
    } else if d == 2 {
        '2'
    } else if d == 3 {
        '3'
    } else if d == 4 {
        '4'
    } else if d == 5 {
        '5'
    } else if d == 6 {
        '6'
    } else if d == 7 {
        '7'
    } else if d == 8 {
        '8'
    } else {
        '9'
    }
}

/// The decimal digits of `n`, at least `width` of them, padded with leading zeros.
pub open spec fn padded(n: nat, width: nat) -> Seq<char>
    decreases width, n,
{
    if width <= 1 && n < 10 {
        seq![digit_char(n as int)]
    } else if width <= 1 {
        padded(n / 10, 0).push(digit_char(n as int % 10))
    } else {
        padded(n / 10, (width - 1) as nat).push(digit_char(n as int % 10))
    }
}

/// Decimal text of a signed number, with a leading '-' when it is negative.
pub open spec fn signed_padded(i: int, width: nat) -> Seq<char> {
    if i < 0 {
        seq!['-'] + padded((-i) as nat, width)
    } else {
        padded(i as nat, width)
    }
}

pub open spec fn month_name(m: int) -> Seq<char> {
    if m == 1 {
        "January"@
    } else if m == 2 {
        "February"@
    } else if m == 3 {
        "March"@
    } else if m == 4 {
        "April"@
    } else if m == 5 {
        "May"@
    } else if m == 6 {
        "June"@
    } else if m == 7 {
        "July"@
    } else if m == 8 {
        "August"@
    } else if m == 9 {
        "September"@
    } else if m == 10 {
        "October"@
    } else if m == 11 {
        "November"@
    } else {
        "December"@
    }
}

/// The sequence with every element that equals the one before it removed.
pub open spec fn dedup_consecutive(s: Seq<Seq<char>>) -> Seq<Seq<char>>
    decreases s.len(),
{
    if s.len() == 0 {
        s
    } else if s.len() >= 2 && s[s.len() - 2] == s.last() {
        dedup_consecutive(s.drop_last())
    } else {
        dedup_consecutive(s.drop_last()).push(s.last())
    }
}

/// The parts written one after another, with `sep` between each two.
pub open spec fn join(parts: Seq<Seq<char>>, sep: Seq<char>) -> Seq<char>
    decreases parts.len(),
{
    if parts.len() == 0 {
        Seq::empty()
    } else if parts.len() == 1 {
        parts[0]
    } else {
        join(parts.drop_last(), sep) + sep + parts.last()
    }
}

pub open spec fn label_separator() -> Seq<char> {
    seq![' ', '-', ' ']
}

pub open spec fn views(v: Seq<String>) -> Seq<Seq<char>> {
    v.map_values(|s: String| s@)
}

/// The label of a run of month names: each run of equal names once, joined by " - ".
pub open spec fn month_run_label(names: Seq<Seq<char>>) -> Seq<char> {
    join(dedup_consecutive(names), label_separator())
}

fn digit_str(d: u64) -> (r: &'static str)
    requires
        d < 10,
    ensures
        r@ == seq![digit_char(d as int)],
{
    proof {
        reveal_strlit("0");
        reveal_strlit("1");
        reveal_strlit("2");
        reveal_strlit("3");
        reveal_strlit("4");
        reveal_strlit("5");
        reveal_strlit("6");
        reveal_strlit("7");
        reveal_strlit("8");
        reveal_strlit("9");
    }
    if d == 0 {
        "0"
    } else if d == 1 {
        "1"
    } else if d == 2 {
        "2"
    } else if d == 3 {
        "3"
    } else if d == 4 {
        "4"
    } else if d == 5 {
        "5"
    } else if d == 6 {
        "6"
    } else if d == 7 {
        "7"
    } else if d == 8 {
        "8"
    } else {
        "9"
    }
}

/// Appends the digits of `n`, zero-padded to at least `width` digits.
pub fn write_padded(n: u64, width: u64, out: &mut String)
    ensures
        final(out)@ == old(out)@ + padded(n as nat, width as nat),
    decreases width, n,
{
    if width <= 1 && n < 10 {
        out.append(digit_str(n));
    } else if width <= 1 {
        write_padded(n / 10, 0, out);
        out.append(digit_str(n % 10));
    } else {
        write_padded(n / 10, width - 1, out);
        out.append(digit_str(n % 10));
    }
}

/// Appends a signed number, zero-padded to at least `width` digits after any sign.
pub fn write_signed_padded(i: i32, width: u64, out: &mut String)
    ensures
        final(out)@ == old(out)@ + signed_padded(i as int, width as nat),
{
    if i < 0 {
        proof {
            reveal_strlit("-");
        }
        out.append("-");
        let magnitude: u64 = (0i64 - i as i64) as u64;
        write_padded(magnitude, width, out);
        assert(final(out)@ =~= old(out)@ + signed_padded(i as int, width as nat));
    } else {
        write_padded(i as u64, width, out);
    }
}

/// English name of a month, 1 being January.
pub fn month_name_of(m: u8) -> (r: String)
    requires
        1 <= m <= 12,
    ensures
        r@ == month_name(m as int),
{
    let s: &str = if m == 1 {
        "January"
    } else if m == 2 {
        "February"
    } else if m == 3 {
        "March"
    } else if m == 4 {
        "April"
    } else if m == 5 {
        "May"
    } else if m == 6 {
        "June"
    } else if m == 7 {
        "July"
    } else if m == 8 {
        "August"
    } else if m == 9 {
        "September"
    } else if m == 10 {
        "October"
    } else if m == 11 {
        "November"
    } else {
        "December"
    };
    String::from_str(s)
}

/// A month of the year.
#[derive(Clone, Copy, Debug, PartialEq, Eq, Structural)]
pub enum Month {
    January,
    February,
    March,
    April,
    May,
    June,
    July,
    August,
    September,
    October,
    November,
    December,
}

impl Month {
    /// The month's number, 1 for January to 12 for December.
    pub open spec fn number(self) -> int {
        match self {
            Month::January => 1,
            Month::February => 2,
            Month::March => 3,
            Month::April => 4,
            Month::May => 5,
            Month::June => 6,
            Month::July => 7,
            Month::August => 8,
            Month::September => 9,
            Month::October => 10,
            Month::November => 11,
            Month::December => 12,
        }
    }

    /// The month's English name.
    pub fn name(self) -> (r: String)
        ensures
            r@ == month_name(self.number()),
    {
        let n: u8 = match self {
            Month::January => 1,
            Month::February => 2,
            Month::March => 3,
            Month::April => 4,
            Month::May => 5,
            Month::June => 6,
            Month::July => 7,
            Month::August => 8,
            Month::September => 9,
            Month::October => 10,
            Month::November => 11,
            Month::December => 12,
        };
        month_name_of(n)
    }
}

/// The month numbered `value`, 1 being January; `None` outside 1 to 12.
pub fn month_from_u8(value: u8) -> (r: Option<Month>)
    ensures
        r is Some <==> 1 <= value <= 12,
        r matches Some(m) ==> m.number() == value,
{
    match value {
        1 => Some(Month::January),
        2 => Some(Month::February),
        3 => Some(Month::March),
        4 => Some(Month::April),
        5 => Some(Month::May),
        6 => Some(Month::June),
        7 => Some(Month::July),
        8 => Some(Month::August),
        9 => Some(Month::September),
        10 => Some(Month::October),
        11 => Some(Month::November),
        12 => Some(Month::December),
        _ => None,
    }
}

/// Relies on dedup_iter::DedupAdapter::dedup: removes each element equal to the one before it.
#[verifier::external_body]
fn dedup_names(names: Vec<String>) -> (r: Vec<String>)
    ensures
        views(r@) == dedup_consecutive(views(names@)),
{
    dedup_iter::DedupAdapter::dedup(names.into_iter()).collect()
}

/// Joins the parts with " - " between each two.
pub fn join_with_separator(parts: &Vec<String>) -> (r: String)
    ensures
        r@ == join(views(parts@), label_separator()),
{
    let mut out = String::new();
    let mut i: usize = 0;
    while i < parts.len()
        invariant
            i <= parts.len(),
            out@ == join(views(parts@).take(i as int), label_separator()),
        decreases parts.len() - i,
    {
        let ghost before = views(parts@).take(i as int);
        let ghost after = views(parts@).take(i + 1);
        assert(after.drop_last() =~= before);
        if i > 0 {
            proof {
                reveal_strlit(" - ");
            }
            out.append(" - ");
        }
        out.append(parts[i].as_str());
        assert(after.last() == parts@[i as int]@);
        assert(out@ =~= join(after, label_separator())) by {
            if i == 0 {
                assert(after.len() == 1);
                assert(after[0] == parts@[0]@);
            } else {
                assert(join(after, label_separator()) == join(before, label_separator())
                    + label_separator() + after.last());
            }
        }
        i = i + 1;
    }
    assert(views(parts@).take(parts.len() as int) =~= views(parts@));
    out
}

/// The label of the months that a run of days touches, in order: "March", or "April - May".
pub fn month_run_label_of(names: Vec<String>) -> (r: String)
    ensures
        r@ == month_run_label(views(names@)),
{
    let distinct = dedup_names(names);
    join_with_separator(&distinct)
}

} // verus!
