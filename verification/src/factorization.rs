//! A factorization written out as a product of prime powers, as in
//! `36 = 2² x 3²`.

use crate::traits::FactorizationError;
use crate::uint::{decimal, decimal_digits, values, U512};
use vstd::prelude::*;

verus! {

/// `String::push_str` appends the characters of its argument.
pub assume_specification[ String::push_str ](buffer: &mut String, piece: &str)
    ensures
        final(buffer)@ == old(buffer)@ + piece@,
;

/// `String::push` appends its argument.
pub assume_specification[ String::push ](buffer: &mut String, c: char)
    ensures
        final(buffer)@ == old(buffer)@.push(c),
;

/// The raised form of a decimal digit.
pub open spec fn superscript_char(d: nat) -> char {
    "⁰¹²³⁴⁵⁶⁷⁸⁹"@[d as int]
}

/// `n` written in raised decimal digits.
pub open spec fn raised(n: nat) -> Seq<char> {
    decimal_digits(n).map_values(|d: nat| superscript_char(d))
}

/// An exponent as it is shown: not at all where it is 0 or 1, else in raised
/// digits.
pub open spec fn superscript(exponent: nat) -> Seq<char> {
    if exponent <= 1 {
        Seq::empty()
    } else {
        raised(exponent)
    }
}

/// One prime power as it is shown: the base in decimal, then the exponent.
pub open spec fn formatted_factor(power: (nat, nat)) -> Seq<char> {
    decimal(power.0) + superscript(power.1)
}

/// A table of numbers with their counts, in ascending order of the numbers,
/// after one more occurrence of `x` is counted.
pub open spec fn tally(table: Seq<(nat, nat)>, x: nat) -> Seq<(nat, nat)>
    decreases table.len(),
{
    if table.len() == 0 {
        seq![(x, 1nat)]
    } else if table[0].0 < x {
        seq![table[0]] + tally(table.drop_first(), x)
    } else if table[0].0 == x {
        table.update(0, (x, table[0].1 + 1))
    } else {
        seq![(x, 1nat)] + table
    }
}

/// The different elements of `s` in ascending order, each with the number of
/// times it occurs.
pub open spec fn frequencies(s: Seq<nat>) -> Seq<(nat, nat)>
    decreases s.len(),
{
    if s.len() == 0 {
        Seq::empty()
    } else {
        tally(frequencies(s.drop_last()), s.last())
    }
}

/// Prime powers joined by ` x `.
pub open spec fn joined(powers: Seq<(nat, nat)>) -> Seq<char>
    decreases powers.len(),
{
    if powers.len() == 0 {
        Seq::empty()
    } else if powers.len() == 1 {
        formatted_factor(powers[0])
    } else {
        joined(powers.drop_last()) + " x "@ + formatted_factor(powers.last())
    }
}

/// A number and its factors as they are shown: the number, ` = `, and the
/// different factors in ascending order, each with the number of times it
/// occurs as its exponent.
pub open spec fn rendering(number: nat, factors: Seq<nat>) -> Seq<char> {
    decimal(number) + " = "@ + joined(frequencies(factors))
}

/// The numbers and counts that a table of integers with counts denotes.
pub open spec fn table_view(table: Seq<(U512, u128)>) -> Seq<(nat, nat)> {
    table.map_values(|entry: (U512, u128)| (entry.0@, entry.1 as nat))
}

/// A number together with factors of it.
pub struct Factorization {
    number: U512,
    factors: Vec<U512>,
}

impl Factorization {
    /// The number.
    pub closed spec fn number(&self) -> nat {
        self.number@
    }

    /// The factors, in the order in which they were given.
    pub closed spec fn factors(&self) -> Seq<nat> {
        values(self.factors@)
    }

    /// `number` with the factors `factors`.
    pub fn new(number: &U512, factors: Vec<U512>) -> (r: Self)
        ensures
            r.number() == number@,
            r.factors() == values(factors@),
    {
        Self { number: *number, factors }
    }

    /// The factorization written out, as in `36 = 2² x 3²`.
    pub fn display(&self) -> (r: String)
        ensures
            r@ == rendering(self.number(), self.factors()),
    {
        let table = self.factor_frequencies();
        let mut out = self.number.to_decimal_string();
        out.push_str(" = ");
        let ghost head = out@;
        let mut shown: usize = 0;
        while shown < table.len()
            invariant
                shown <= table@.len(),
                out@ == head + joined(table_view(table@).subrange(0, shown as int)),
            decreases table@.len() - shown,
        {
            let ghost before = table_view(table@).subrange(0, shown as int);
            let ghost after = table_view(table@).subrange(0, shown + 1);
            assert(after.drop_last() =~= before);
            assert(after.last() == (table@[shown as int].0@, table@[shown as int].1 as nat));
            if shown > 0 {
                out.push_str(" x ");
            }
            let piece = format_factor(&table[shown].0, table[shown].1);
            out.push_str(piece.as_str());
            proof {
                if shown == 0 {
                    assert(joined(before) =~= Seq::<char>::empty());
                    assert(head + joined(after) =~= head + joined(before) + piece@);
                } else {
                    assert(head + joined(after) =~= head + joined(before) + " x "@ + piece@);
                }
            }
            shown += 1;
        }
        assert(table_view(table@).subrange(0, shown as int) =~= table_view(table@));
        out
    }

    /// The different factors in ascending order, each with the number of
    /// times it occurs.
    fn factor_frequencies(&self) -> (table: Vec<(U512, u128)>)
        ensures
            table_view(table@) == frequencies(self.factors()),
    {
        let mut table: Vec<(U512, u128)> = Vec::new();
        let mut counted: usize = 0;
        assert(values(self.factors@).subrange(0, 0) =~= Seq::<nat>::empty());
        assert(table_view(table@) =~= Seq::<(nat, nat)>::empty());
        while counted < self.factors.len()
            invariant
                counted <= self.factors@.len(),
                table_view(table@) == frequencies(
                    values(self.factors@).subrange(0, counted as int),
                ),
                is_ascending_table(table_view(table@)),
                forall|j: int| 0 <= j < table@.len() ==> (#[trigger] table@[j]).1 <= counted,
            decreases self.factors@.len() - counted,
        {
            let factor = self.factors[counted];
            let ghost prefix = values(self.factors@).subrange(0, counted as int);
            let ghost longer = values(self.factors@).subrange(0, counted + 1);
            assert(longer.drop_last() =~= prefix);
            assert(longer.last() == factor@);
            let ghost old_table = table_view(table@);
            let mut place: usize = 0;
            while place < table.len() && table[place].0.lt(&factor)
                invariant
                    place <= table@.len(),
                    forall|j: int| 0 <= j < place ==> (#[trigger] table@[j]).0@ < factor@,
                decreases table@.len() - place,
            {
                place += 1;
            }
            proof {
                lemma_tally_at(old_table, factor@, place as int);
            }
            if place < table.len() && table[place].0.equals(&factor) {
                let count = table[place].1;
                table.set(place, (factor, count + 1));
                assert(table_view(table@) =~= old_table.update(
                    place as int,
                    (factor@, old_table[place as int].1 + 1),
                ));
            } else {
                table.insert(place, (factor, 1));
                assert(table_view(table@) =~= old_table.insert(place as int, (factor@, 1nat)));
            }
            counted += 1;
        }
        assert(values(self.factors@).subrange(0, counted as int) =~= values(self.factors@));
        table
    }
}

/// The numbers of a table strictly increase.
pub open spec fn is_ascending_table(table: Seq<(nat, nat)>) -> bool {
    forall|i: int, j: int| 0 <= i < j < table.len() ==> table[i].0 < table[j].0
}

/// Counting `x` into an ascending table changes the table at the first
/// place whose number is not below `x`: the count there goes up by one where
/// the number is `x`, and else `x` is put in there with the count 1. The
/// table stays ascending.
pub proof fn lemma_tally_at(table: Seq<(nat, nat)>, x: nat, place: int)
    requires
        is_ascending_table(table),
        0 <= place <= table.len(),
        forall|j: int| 0 <= j < place ==> (#[trigger] table[j]).0 < x,
        place < table.len() ==> table[place].0 >= x,
    ensures
        tally(table, x) == if place < table.len() && table[place].0 == x {
            table.update(place, (x, table[place].1 + 1))
        } else {
            table.insert(place, (x, 1nat))
        },
        is_ascending_table(tally(table, x)),
    decreases table.len(),
{
    if table.len() == 0 {
        assert(table.insert(0, (x, 1nat)) =~= seq![(x, 1nat)]);
    } else if place == 0 {
        if table[0].0 == x {
        } else {
            assert(table.insert(0, (x, 1nat)) =~= seq![(x, 1nat)] + table);
        }
    } else {
        let rest = table.drop_first();
        lemma_tally_at(rest, x, place - 1);
        if place < table.len() && table[place].0 == x {
            assert(seq![table[0]] + rest.update(place - 1, (x, rest[place - 1].1 + 1))
                =~= table.update(place, (x, table[place].1 + 1)));
        } else {
            assert(seq![table[0]] + rest.insert(place - 1, (x, 1nat)) =~= table.insert(
                place,
                (x, 1nat),
            ));
        }
    }
}

/// How often a table says that `x` occurs.
pub open spec fn count_in_table(table: Seq<(nat, nat)>, x: nat) -> nat
    decreases table.len(),
{
    if table.len() == 0 {
        0
    } else if table[0].0 == x {
        table[0].1 + count_in_table(table.drop_first(), x)
    } else {
        count_in_table(table.drop_first(), x)
    }
}

/// Counting `y` into an ascending table leaves it ascending, raises the
/// count of `y` by one and leaves the other counts as they are.
pub proof fn lemma_tally_counts(table: Seq<(nat, nat)>, y: nat, x: nat)
    requires
        is_ascending_table(table),
    ensures
        is_ascending_table(tally(table, y)),
        tally(table, y).len() > 0,
        tally(table, y)[0].0 == if table.len() > 0 && table[0].0 < y {
            table[0].0
        } else {
            y
        },
        count_in_table(tally(table, y), x) == count_in_table(table, x) + if x == y {
            1nat
        } else {
            0nat
        },
    decreases table.len(),
{
    let gain: nat = if x == y {
        1
    } else {
        0
    };
    if table.len() == 0 {
        let counted = seq![(y, 1nat)];
        assert(counted.drop_first() =~= Seq::<(nat, nat)>::empty());
        assert(count_in_table(counted.drop_first(), x) == 0);
        assert(count_in_table(counted, x) == gain);
    } else if table[0].0 < y {
        let rest = table.drop_first();
        lemma_tally_counts(rest, y, x);
        let counted = seq![table[0]] + tally(rest, y);
        assert(counted.drop_first() =~= tally(rest, y));
        assert(count_in_table(counted, x) == count_in_table(table, x) + gain);
        assert forall|i: int, j: int| 0 <= i < j < counted.len() implies counted[i].0
            < counted[j].0 by {
            if i == 0 {
                if j > 1 {
                    assert(tally(rest, y)[0].0 < tally(rest, y)[j - 1].0);
                }
                if rest.len() > 0 {
                    assert(table[0].0 < table[1].0);
                }
            } else {
                assert(tally(rest, y)[i - 1].0 < tally(rest, y)[j - 1].0);
            }
        }
    } else if table[0].0 == y {
        let counted = table.update(0, (y, table[0].1 + 1));
        assert(counted.drop_first() =~= table.drop_first());
        assert(count_in_table(counted, x) == count_in_table(table, x) + gain);
        assert forall|i: int, j: int| 0 <= i < j < counted.len() implies counted[i].0
            < counted[j].0 by {
            assert(table[i].0 < table[j].0);
        }
    } else {
        let counted = seq![(y, 1nat)] + table;
        assert(counted.drop_first() =~= table);
        lemma_absent_below_first(table, y);
        assert(count_in_table(counted, x) == count_in_table(table, x) + gain);
        assert forall|i: int, j: int| 0 <= i < j < counted.len() implies counted[i].0
            < counted[j].0 by {
            if i == 0 {
                if j > 1 {
                    assert(table[0].0 < table[j - 1].0);
                }
            } else {
                assert(table[i - 1].0 < table[j - 1].0);
            }
        }
    }
}

/// An ascending table has no count for a number below its first.
pub proof fn lemma_absent_below_first(table: Seq<(nat, nat)>, x: nat)
    requires
        is_ascending_table(table),
        table.len() > 0 ==> x < table[0].0,
    ensures
        count_in_table(table, x) == 0,
    decreases table.len(),
{
    if table.len() > 0 {
        let rest = table.drop_first();
        if rest.len() > 0 {
            assert(table[0].0 < table[1].0);
        }
        assert forall|i: int, j: int| 0 <= i < j < rest.len() implies rest[i].0 < rest[j].0 by {
            assert(table[i + 1].0 < table[j + 1].0);
        }
        lemma_absent_below_first(rest, x);
    }
}

/// The table of frequencies is what its name says: it ascends, and it
/// counts each number as often as the number occurs.
pub proof fn lemma_frequencies_count(s: Seq<nat>, x: nat)
    ensures
        is_ascending_table(frequencies(s)),
        count_in_table(frequencies(s), x) == s.to_multiset().count(x),
    decreases s.len(),
{
    if s.len() == 0 {
        s.to_multiset_ensures();
        assert(s.to_multiset().len() == 0);
    } else {
        let front = s.drop_last();
        lemma_frequencies_count(front, x);
        lemma_tally_counts(frequencies(front), s.last(), x);
        assert(front.push(s.last()) =~= s);
        vstd::seq_lib::to_multiset_build(front, s.last());
    }
}

/// The outcome of a factorization of `n` in words: the factorization written
/// out, or the failure.
pub fn show_outcome(n: &U512, outcome: Result<Vec<U512>, FactorizationError>) -> (r: String)
    ensures
        r@ == match outcome {
            Ok(factors) => rendering(n@, values(factors@)),
            Err(e) => e.message_text(),
        },
{
    match outcome {
        Ok(factors) => Factorization::new(n, factors).display(),
        Err(e) => e.message(),
    }
}

/// One prime power written out: the base in decimal, then the exponent in
/// raised digits unless it is 0 or 1.
pub fn format_factor(base: &U512, exponent: u128) -> (r: String)
    ensures
        r@ == formatted_factor((base@, exponent as nat)),
{
    let mut out = base.to_decimal_string();
    let raised = to_superscript(exponent);
    out.push_str(raised.as_str());
    out
}

/// An exponent written out: nothing for 0 and 1, raised digits for any
/// other.
pub fn to_superscript(exp: u128) -> (r: String)
    ensures
        r@ == superscript(exp as nat),
{
    let mut out = String::new();
    if exp > 1 {
        push_raised(&mut out, exp);
    }
    out
}

/// Appends `n` in raised decimal digits.
fn push_raised(buffer: &mut String, n: u128)
    ensures
        final(buffer)@ == old(buffer)@ + raised(n as nat),
    decreases n,
{
    if n >= 10 {
        push_raised(buffer, n / 10);
    }
    let digit = (n % 10) as u8;
    proof {
        reveal_strlit("⁰¹²³⁴⁵⁶⁷⁸⁹");
        if n >= 10 {
            assert(raised(n as nat) =~= raised((n / 10) as nat).push(
                superscript_char(digit as nat),
            ));
        } else {
            assert(raised(n as nat) =~= seq![superscript_char(digit as nat)]);
        }
    }
    buffer.push("⁰¹²³⁴⁵⁶⁷⁸⁹".get_char(digit as usize));
}

} // verus!
