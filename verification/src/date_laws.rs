//! The calendar, told day by day, and the form in which a time is written.

use vstd::prelude::*;

use crate::text::{decimal_round_trip, decimal_text, decimal_value, zero_padded};
use crate::util::{
    days_before_month, days_from_civil, days_in_month, leap, leaps_through, rfc3339_text,
    valid_date,
};

verus! {

/// The length of a month: months alternate between long and short, and start
/// over with a long one in August. February has a day more in each year that
/// four divides, but for the centuries that four hundred does not.
pub open spec fn month_length(y: int, m: int) -> int {
    if m != 2 {
        30 + (m + m / 8) % 2
    } else if y % 400 == 0 || (y % 4 == 0 && y % 100 != 0) {
        29
    } else {
        28
    }
}

/// Days are counted one by one from the first of January 1970: the day after
/// the last of a month is the first of the next, and the day after the last
/// of December the first of January.
pub proof fn days_follow_each_other(y: int, m: int, d: int)
    requires
        1 <= m <= 12,
    ensures
        days_from_civil(1970, 1, 1) == 0,
        valid_date(y, m, d) <==> 1 <= d <= month_length(y, m),
        days_from_civil(y, m, d + 1) == days_from_civil(y, m, d) + 1,
        m < 12 ==> days_from_civil(y, m + 1, 1) == days_from_civil(y, m, month_length(y, m)) + 1,
        m == 12 ==> days_from_civil(y + 1, 1, 1) == days_from_civil(y, 12, 31) + 1,
{
    assert(days_in_month(y, m) == month_length(y, m));
    reveal_with_fuel(days_before_month, 13);
    assert(days_before_month(y, 12) + 31 == if leap(y) {
        366int
    } else {
        365
    });
    lemma_year(y);
}

proof fn lemma_year(y: int)
    ensures
        leaps_through(y) - leaps_through(y - 1) == if leap(y) {
            1int
        } else {
            0
        },
{
}

/// A time is written with its hours, minutes and seconds in two digits each,
/// which together are the second of the day, and ends in a `Z`.
pub proof fn times_are_written_in_full(y: int, m: int, d: int, second: int)
    requires
        0 <= second < 86_400,
        0 <= y <= 9999,
        1 <= m <= 12,
        1 <= d <= 31,
    ensures
        ({
            let text = rfc3339_text(y, m, d, second);
            let hours = decimal_value(text.subrange(11, 13));
            let minutes = decimal_value(text.subrange(14, 16));
            let seconds = decimal_value(text.subrange(17, 19));
            &&& text.len() == 20
            &&& decimal_value(text.subrange(0, 4)) == y
            &&& text[4] == '-'
            &&& decimal_value(text.subrange(5, 7)) == m
            &&& text[7] == '-'
            &&& decimal_value(text.subrange(8, 10)) == d
            &&& text[10] == 'T'
            &&& text[13] == ':'
            &&& text[16] == ':'
            &&& text[19] == 'Z'
            &&& hours * 3600 + minutes * 60 + seconds == second
            &&& minutes < 60
            &&& seconds < 60
        }),
{
    let text = rfc3339_text(y, m, d, second);
    let h = second / 3600;
    let min = second % 3600 / 60;
    let sec = second % 60;
    lemma_padded(y as nat, 4);
    lemma_padded(m as nat, 2);
    lemma_padded(d as nat, 2);
    lemma_padded(h as nat, 2);
    lemma_padded(min as nat, 2);
    lemma_padded(sec as nat, 2);
    assert(text.subrange(0, 4) =~= zero_padded(y as nat, 4));
    assert(text.subrange(5, 7) =~= zero_padded(m as nat, 2));
    assert(text.subrange(8, 10) =~= zero_padded(d as nat, 2));
    assert(text.subrange(11, 13) =~= zero_padded(h as nat, 2));
    assert(text.subrange(14, 16) =~= zero_padded(min as nat, 2));
    assert(text.subrange(17, 19) =~= zero_padded(sec as nat, 2));
    assert(h * 3600 + min * 60 + sec == second);
}

proof fn lemma_padded(n: nat, width: int)
    requires
        width == 2 && n < 100 || width == 4 && n < 10_000,
    ensures
        zero_padded(n, width).len() == width,
        decimal_value(zero_padded(n, width)) == n,
{
    let digits = decimal_text(n);
    decimal_round_trip(n);
    reveal_with_fuel(decimal_text, 5);
    assert(digits.len() <= width);
    if digits.len() < width {
        let zeros = Seq::new((width - digits.len()) as nat, |i: int| '0');
        lemma_zeros(zeros, digits);
    }
}

proof fn lemma_zeros(zeros: Seq<char>, digits: Seq<char>)
    requires
        forall|i: int| 0 <= i < zeros.len() ==> #[trigger] zeros[i] == '0',
    ensures
        decimal_value(zeros + digits) == decimal_value(digits),
    decreases zeros.len() + digits.len(),
{
    let all = zeros + digits;
    if digits.len() > 0 {
        lemma_zeros(zeros, digits.drop_last());
        assert(all.drop_last() =~= zeros + digits.drop_last());
    } else if zeros.len() > 0 {
        let front = zeros.drop_last();
        assert forall|i: int| 0 <= i < front.len() implies #[trigger] front[i] == '0' by {
            assert(zeros[i] == '0');
        }
        lemma_zeros(front, digits);
        assert(all.drop_last() =~= front + digits);
        assert(zeros[zeros.len() - 1] == '0');
    }
}

} // verus!
