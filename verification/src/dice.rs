//! The dice bot: a single die with a given number of sides, and dice terms
//! such as `2d6+3-1d4`, evaluated with random rolls.
//!
//! A term is read as follows: where it holds a `+` it is
//! the sum of the pieces between the `+`s; otherwise, where it holds a `-`,
//! the first piece between the `-`s less the others; otherwise, where it
//! holds a `d`, the number before the first `d` (1 where that is no number)
//! times one roll of a die with the number of sides after it (1 where that is
//! no number); otherwise the number it is (0 where it is none). Each die
//! takes one roll, from left to right.
use vstd::prelude::*;
use crate::text::{
    chars_of, contains_char, replace_all, replace_chars, split_chars, split_on, split_once,
    split_once_chars, string_of, char_vec_views, lemma_split_on_nonempty,
    lemma_split_pieces_free_of_sep, lemma_split_append, lemma_split_free,
    lemma_remove_char_idempotent, lemma_split_concat, find_char, lemma_find_char,
    lemma_split_once,
};
use crate::number::{
    decimal, decimal_int, i64_decimal, opt_i64, parse_i64, parse_i64_spec, parse_u32,
    parse_u32_spec, parse_u64, parse_u64_spec, u64_decimal, is_digit, lemma_decimal_digits,
    lemma_parse_decimal_roundtrip, all_digits,
};

verus! {

/// The dice bot.
#[derive(Clone, Copy, Debug)]
pub struct DiceBot {}

pub open spec fn in_i64(v: int) -> bool {
    i64::MIN <= v && v <= i64::MAX
}

/// The number of rolls a piece with neither `+` nor `-` takes.
pub open spec fn atom_rolls(a: Seq<char>) -> nat {
    if a.contains('d') {
        1
    } else {
        0
    }
}

pub open spec fn atoms_rolls(pieces: Seq<Seq<char>>) -> nat
    decreases pieces.len(),
{
    if pieces.len() == 0 {
        0
    } else {
        atoms_rolls(pieces.drop_last()) + atom_rolls(pieces.last())
    }
}

/// The number of rolls a piece without `+` takes.
pub open spec fn diff_rolls(t: Seq<char>) -> nat {
    if t.contains('-') {
        atoms_rolls(split_on(t, '-'))
    } else {
        atom_rolls(t)
    }
}

pub open spec fn diffs_rolls(pieces: Seq<Seq<char>>) -> nat
    decreases pieces.len(),
{
    if pieces.len() == 0 {
        0
    } else {
        diffs_rolls(pieces.drop_last()) + diff_rolls(pieces.last())
    }
}

/// The number of rolls the term `t` takes: one for each die in it.
pub open spec fn dice_count(t: Seq<char>) -> nat {
    if t.contains('+') {
        diffs_rolls(split_on(t, '+'))
    } else {
        diff_rolls(t)
    }
}

/// The number before the first `d` of a die piece, 1 where it is none.
pub open spec fn die_multiplier(a: Seq<char>) -> int {
    match parse_i64_spec(split_once(a, 'd').0) {
        Some(v) => v,
        None => 1,
    }
}

/// The number of sides after the first `d` of a die piece, 1 where it is
/// none.
pub open spec fn die_sides(a: Seq<char>) -> int {
    match split_once(a, 'd').1 {
        Some(s) => match parse_u32_spec(s) {
            Some(v) => v,
            None => 1,
        },
        None => 1,
    }
}

/// Whether a piece with neither `+` nor `-` is a die with no sides.
pub open spec fn atom_zero_sided(a: Seq<char>) -> bool {
    a.contains('d') && die_sides(a) == 0
}

pub open spec fn atoms_zero_sided(pieces: Seq<Seq<char>>) -> bool
    decreases pieces.len(),
{
    pieces.len() > 0 && (atoms_zero_sided(pieces.drop_last()) || atom_zero_sided(pieces.last()))
}

/// Whether a piece without `+` has a die with no sides.
pub open spec fn diff_zero_sided(t: Seq<char>) -> bool {
    if t.contains('-') {
        atoms_zero_sided(split_on(t, '-'))
    } else {
        atom_zero_sided(t)
    }
}

pub open spec fn diffs_zero_sided(pieces: Seq<Seq<char>>) -> bool
    decreases pieces.len(),
{
    pieces.len() > 0 && (diffs_zero_sided(pieces.drop_last()) || diff_zero_sided(pieces.last()))
}

/// Whether the term `t` has a die with no sides (such as `2d0`), which no
/// roll can be taken of.
pub open spec fn has_zero_sided_die(t: Seq<char>) -> bool {
    if t.contains('+') {
        diffs_zero_sided(split_on(t, '+'))
    } else {
        diff_zero_sided(t)
    }
}

/// The value of a piece with neither `+` nor `-`, with `rolls[0]` as the
/// roll of its die; `None` where the die has no sides or the product does
/// not fit an `i64`.
pub open spec fn atom_value(a: Seq<char>, rolls: Seq<u32>) -> Option<int> {
    if a.contains('d') {
        let sides = die_sides(a);
        if sides == 0 {
            None
        } else {
            let v = die_multiplier(a) * (1 + (rolls[0] as int) % sides);
            if in_i64(v) {
                Some(v)
            } else {
                None
            }
        }
    } else {
        Some(
            match parse_i64_spec(a) {
                Some(v) => v,
                None => 0,
            },
        )
    }
}

pub open spec fn checked_add(a: Option<int>, b: Option<int>) -> Option<int> {
    match (a, b) {
        (Some(x), Some(y)) => if in_i64(x + y) {
            Some(x + y)
        } else {
            None
        },
        _ => None,
    }
}

pub open spec fn checked_sub(a: Option<int>, b: Option<int>) -> Option<int> {
    match (a, b) {
        (Some(x), Some(y)) => if in_i64(x - y) {
            Some(x - y)
        } else {
            None
        },
        _ => None,
    }
}

/// The first piece less the others, from left to right.
pub open spec fn diff_chain(pieces: Seq<Seq<char>>, rolls: Seq<u32>) -> Option<int>
    decreases pieces.len(),
{
    if pieces.len() == 0 {
        Some(0)
    } else if pieces.len() == 1 {
        atom_value(pieces[0], rolls)
    } else {
        checked_sub(
            diff_chain(pieces.drop_last(), rolls),
            atom_value(pieces.last(), rolls.skip(atoms_rolls(pieces.drop_last()) as int)),
        )
    }
}

/// The value of a piece without `+`.
pub open spec fn diff_value(t: Seq<char>, rolls: Seq<u32>) -> Option<int> {
    if t.contains('-') {
        diff_chain(split_on(t, '-'), rolls)
    } else {
        atom_value(t, rolls)
    }
}

/// The sum of the pieces, from left to right, starting at 0.
pub open spec fn sum_chain(pieces: Seq<Seq<char>>, rolls: Seq<u32>) -> Option<int>
    decreases pieces.len(),
{
    if pieces.len() == 0 {
        Some(0)
    } else {
        checked_add(
            sum_chain(pieces.drop_last(), rolls),
            diff_value(pieces.last(), rolls.skip(diffs_rolls(pieces.drop_last()) as int)),
        )
    }
}

/// The value of the dice term `t` with the given rolls, taken in order;
/// `None` where the bot fails on it: a die without sides, or a result that
/// does not fit an `i64` at some step.
pub open spec fn dice_value(t: Seq<char>, rolls: Seq<u32>) -> Option<int> {
    if t.contains('+') {
        sum_chain(split_on(t, '+'), rolls)
    } else {
        diff_value(t, rolls)
    }
}

/// The term with its spaces taken out.
pub open spec fn without_spaces(t: Seq<char>) -> Seq<char> {
    replace_all(t, seq![' '], Seq::<char>::empty())
}

/// The answer to a roll: the value in decimal.
pub open spec fn roll_text(t: Seq<char>, rolls: Seq<u32>) -> Option<Seq<char>> {
    match dice_value(without_spaces(t), rolls) {
        Some(v) => Some(decimal_int(v)),
        None => None,
    }
}

pub open spec fn opt_text(r: Option<String>) -> Option<Seq<char>> {
    match r {
        Some(s) => Some(s@),
        None => None,
    }
}

/// The number of sides of a single die: 6 where the text is no number.
pub open spec fn single_die_sides(t: Seq<char>) -> int {
    match parse_u64_spec(t) {
        Some(v) => v,
        None => 6,
    }
}

// ---- facts about the roll counts and chains ----

pub proof fn lemma_atoms_rolls_take(pieces: Seq<Seq<char>>, i: int)
    requires
        0 <= i < pieces.len(),
    ensures
        atoms_rolls(pieces.take(i + 1)) == atoms_rolls(pieces.take(i)) + atom_rolls(pieces[i]),
        atoms_rolls(pieces.take(i + 1)) <= atoms_rolls(pieces),
{
    assert(pieces.take(i + 1).drop_last() =~= pieces.take(i));
    lemma_atoms_rolls_prefix(pieces, i + 1);
}

pub proof fn lemma_atoms_rolls_prefix(pieces: Seq<Seq<char>>, i: int)
    requires
        0 <= i <= pieces.len(),
    ensures
        atoms_rolls(pieces.take(i)) <= atoms_rolls(pieces),
    decreases pieces.len(),
{
    if i == pieces.len() {
        assert(pieces.take(i) =~= pieces);
    } else {
        lemma_atoms_rolls_prefix(pieces.drop_last(), i);
        assert(pieces.drop_last().take(i) =~= pieces.take(i));
    }
}

pub proof fn lemma_diffs_rolls_take(pieces: Seq<Seq<char>>, i: int)
    requires
        0 <= i < pieces.len(),
    ensures
        diffs_rolls(pieces.take(i + 1)) == diffs_rolls(pieces.take(i)) + diff_rolls(pieces[i]),
        diffs_rolls(pieces.take(i + 1)) <= diffs_rolls(pieces),
{
    assert(pieces.take(i + 1).drop_last() =~= pieces.take(i));
    lemma_diffs_rolls_prefix(pieces, i + 1);
}

pub proof fn lemma_diffs_rolls_prefix(pieces: Seq<Seq<char>>, i: int)
    requires
        0 <= i <= pieces.len(),
    ensures
        diffs_rolls(pieces.take(i)) <= diffs_rolls(pieces),
    decreases pieces.len(),
{
    if i == pieces.len() {
        assert(pieces.take(i) =~= pieces);
    } else {
        lemma_diffs_rolls_prefix(pieces.drop_last(), i);
        assert(pieces.drop_last().take(i) =~= pieces.take(i));
    }
}

/// Once a difference fails, it stays failed whatever follows.
pub proof fn lemma_diff_chain_fails(pieces: Seq<Seq<char>>, rolls: Seq<u32>, i: int)
    requires
        1 <= i <= pieces.len(),
        diff_chain(pieces.take(i), rolls) is None,
    ensures
        diff_chain(pieces, rolls) is None,
    decreases pieces.len(),
{
    if i < pieces.len() {
        assert(pieces.drop_last().take(i) =~= pieces.take(i));
        lemma_diff_chain_fails(pieces.drop_last(), rolls, i);
    } else {
        assert(pieces.take(i) =~= pieces);
    }
}

/// Once a sum fails, it stays failed whatever follows.
pub proof fn lemma_sum_chain_fails(pieces: Seq<Seq<char>>, rolls: Seq<u32>, i: int)
    requires
        0 <= i <= pieces.len(),
        sum_chain(pieces.take(i), rolls) is None,
    ensures
        sum_chain(pieces, rolls) is None,
    decreases pieces.len(),
{
    if i < pieces.len() {
        assert(pieces.drop_last().take(i) =~= pieces.take(i));
        lemma_sum_chain_fails(pieces.drop_last(), rolls, i);
    } else {
        assert(pieces.take(i) =~= pieces);
    }
}

/// One more step of a difference.
pub proof fn lemma_diff_chain_step(pieces: Seq<Seq<char>>, rolls: Seq<u32>, i: int)
    requires
        1 <= i < pieces.len(),
    ensures
        diff_chain(pieces.take(i + 1), rolls) == checked_sub(
            diff_chain(pieces.take(i), rolls),
            atom_value(pieces[i], rolls.skip(atoms_rolls(pieces.take(i)) as int)),
        ),
        atoms_rolls(pieces.take(i + 1)) == atoms_rolls(pieces.take(i)) + atom_rolls(pieces[i]),
        atoms_rolls(pieces.take(i + 1)) <= atoms_rolls(pieces),
{
    let next = pieces.take(i + 1);
    assert(next.drop_last() =~= pieces.take(i));
    assert(next.last() == pieces[i]);
    lemma_atoms_rolls_take(pieces, i);
}

/// The first step of a difference.
pub proof fn lemma_diff_chain_first(pieces: Seq<Seq<char>>, rolls: Seq<u32>)
    requires
        1 <= pieces.len(),
    ensures
        diff_chain(pieces.take(1), rolls) == atom_value(pieces[0], rolls),
        atoms_rolls(pieces.take(1)) == atom_rolls(pieces[0]),
        atoms_rolls(pieces.take(1)) <= atoms_rolls(pieces),
{
    assert(pieces.take(1)[0] == pieces[0]);
    assert(pieces.take(0) =~= Seq::<Seq<char>>::empty());
    lemma_atoms_rolls_take(pieces, 0);
}

/// One more step of a sum.
pub proof fn lemma_sum_chain_step(pieces: Seq<Seq<char>>, rolls: Seq<u32>, i: int)
    requires
        0 <= i < pieces.len(),
    ensures
        sum_chain(pieces.take(i + 1), rolls) == checked_add(
            sum_chain(pieces.take(i), rolls),
            diff_value(pieces[i], rolls.skip(diffs_rolls(pieces.take(i)) as int)),
        ),
        diffs_rolls(pieces.take(i + 1)) == diffs_rolls(pieces.take(i)) + diff_rolls(pieces[i]),
        diffs_rolls(pieces.take(i + 1)) <= diffs_rolls(pieces),
{
    let next = pieces.take(i + 1);
    assert(next.drop_last() =~= pieces.take(i));
    assert(next.last() == pieces[i]);
    lemma_diffs_rolls_take(pieces, i);
}

pub proof fn lemma_skip_skip(s: Seq<u32>, a: int, b: int)
    requires
        0 <= a,
        0 <= b,
        a + b <= s.len(),
    ensures
        s.skip(a).skip(b) == s.skip(a + b),
{
    assert(s.skip(a).skip(b) =~= s.skip(a + b));
}

// ---- laws of dice terms ----

/// A plain number is a term worth itself, and it takes no roll.
pub proof fn lemma_number_term(n: nat, rolls: Seq<u32>)
    requires
        n <= i64::MAX,
    ensures
        dice_value(decimal(n), rolls) == Some(n as int),
        dice_count(decimal(n)) == 0,
{
    lemma_decimal_digits(n);
    let s = decimal(n);
    assert(!s.contains('+')) by {
        if s.contains('+') {
            let j = choose|j: int| 0 <= j < s.len() && s[j] == '+';
            assert(is_digit(s[j]));
        }
    }
    assert(!s.contains('-')) by {
        if s.contains('-') {
            let j = choose|j: int| 0 <= j < s.len() && s[j] == '-';
            assert(is_digit(s[j]));
        }
    }
    assert(!s.contains('d')) by {
        if s.contains('d') {
            let j = choose|j: int| 0 <= j < s.len() && s[j] == 'd';
            assert(is_digit(s[j]));
        }
    }
    lemma_parse_decimal_roundtrip(n as int, i64::MIN as int, i64::MAX as int);
    assert(decimal_int(n as int) == s);
}

/// A die of `S` sides rolls from 1 to `S`: a die piece `NdS` whose number
/// `N` is not negative is worth from `N` to `N` times `S`.
pub proof fn lemma_die_range(a: Seq<char>, rolls: Seq<u32>)
    requires
        a.contains('d'),
        rolls.len() >= 1,
        atom_value(a, rolls) is Some,
        die_multiplier(a) >= 0,
    ensures
        die_multiplier(a) <= atom_value(a, rolls)->0 <= die_multiplier(a) * die_sides(a),
{
    let m = die_multiplier(a);
    let sides = die_sides(a);
    let face = 1 + (rolls[0] as int) % sides;
    assert(1 <= face <= sides);
    assert(m <= m * face <= m * sides) by (nonlinear_arith)
        requires
            m >= 0,
            1 <= face <= sides,
    ;
}

/// A sum of two pieces is the value of the first plus that of the second,
/// the second taking the rolls that come after those of the first.
pub proof fn lemma_sum_of_two(a: Seq<char>, b: Seq<char>, rolls: Seq<u32>)
    requires
        !a.contains('+'),
        !b.contains('+'),
    ensures
        dice_value(a.push('+') + b, rolls) == checked_add(
            diff_value(a, rolls),
            diff_value(b, rolls.skip(diff_rolls(a) as int)),
        ),
        dice_count(a.push('+') + b) == diff_rolls(a) + diff_rolls(b),
{
    let t = a.push('+') + b;
    assert(t[a.len() as int] == '+');
    assert(t.contains('+'));
    lemma_split_append(a, b, '+');
    lemma_split_free(a, '+');
    let ps = split_on(t, '+');
    assert(ps =~= seq![a, b]);
    assert(ps.drop_last() =~= seq![a]);
    assert(seq![a].drop_last() =~= Seq::<Seq<char>>::empty());
    assert(rolls.skip(0) =~= rolls);
    let one = seq![a];
    assert(ps.last() == b);
    assert(one.last() == a);
    assert(diffs_rolls(one.drop_last()) == 0);
    assert(diffs_rolls(one) == diff_rolls(a));
    assert(diffs_rolls(ps) == diff_rolls(a) + diff_rolls(b));
    assert(sum_chain(one.drop_last(), rolls) == Some(0int));
    assert(sum_chain(one, rolls) == checked_add(Some(0), diff_value(a, rolls)));
    assert(sum_chain(ps, rolls) == checked_add(
        sum_chain(one, rolls),
        diff_value(b, rolls.skip(diff_rolls(a) as int)),
    ));
    match diff_value(a, rolls) {
        Some(x) => {
            assert(checked_add(Some(0), Some(x)) == Some(x));
        },
        None => {},
    }
}

pub proof fn lemma_diffs_rolls_concat(p: Seq<Seq<char>>, q: Seq<Seq<char>>)
    ensures
        diffs_rolls(p + q) == diffs_rolls(p) + diffs_rolls(q),
    decreases q.len(),
{
    if q.len() == 0 {
        assert(p + q =~= p);
    } else {
        lemma_diffs_rolls_concat(p, q.drop_last());
        assert((p + q).drop_last() =~= p + q.drop_last());
        assert((p + q).last() == q.last());
    }
}

/// Where every partial sum fits, summing the pieces of `p` and then those of
/// `q` gives the sum of `p` plus that of `q`, the pieces of `q` taking the
/// rolls after those of `p`.
pub proof fn lemma_sum_chain_concat(p: Seq<Seq<char>>, q: Seq<Seq<char>>, rolls: Seq<u32>)
    requires
        rolls.len() >= diffs_rolls(p) + diffs_rolls(q),
        sum_chain(p + q, rolls) is Some,
        sum_chain(p, rolls) is Some,
        sum_chain(q, rolls.skip(diffs_rolls(p) as int)) is Some,
    ensures
        sum_chain(p + q, rolls)->0 == sum_chain(p, rolls)->0 + sum_chain(
            q,
            rolls.skip(diffs_rolls(p) as int),
        )->0,
    decreases q.len(),
{
    let rq = rolls.skip(diffs_rolls(p) as int);
    if q.len() == 0 {
        assert(p + q =~= p);
    } else {
        let q0 = q.drop_last();
        let pq0 = p + q0;
        assert((p + q).drop_last() =~= pq0);
        assert((p + q).last() == q.last());
        lemma_diffs_rolls_concat(p, q0);
        assert(diffs_rolls(q) == diffs_rolls(q0) + diff_rolls(q.last()));
        lemma_skip_skip(rolls, diffs_rolls(p) as int, diffs_rolls(q0) as int);
        assert(sum_chain(pq0, rolls) is Some);
        assert(sum_chain(q0, rq) is Some);
        lemma_sum_chain_concat(p, q0, rolls);
    }
}

/// A term is the sum of its pieces between `+`s, where it has a value, and
/// takes the rolls of its pieces.
pub proof fn lemma_term_as_sum(t: Seq<char>, rolls: Seq<u32>)
    ensures
        dice_count(t) == diffs_rolls(split_on(t, '+')),
        dice_value(t, rolls) is Some ==> sum_chain(split_on(t, '+'), rolls) == dice_value(
            t,
            rolls,
        ),
{
    if !t.contains('+') {
        lemma_split_free(t, '+');
        let one = seq![t];
        assert(one.drop_last() =~= Seq::<Seq<char>>::empty());
        assert(one.last() == t);
        assert(diffs_rolls(one.drop_last()) == 0);
        assert(rolls.skip(0) =~= rolls);
        assert(sum_chain(one.drop_last(), rolls) == Some(0int));
    }
}

/// A term joined with `+` to another is worth the sum of the two, the second
/// taking the rolls after those of the first, wherever the three have a
/// value (none of their partial sums passes the `i64` range); and it takes
/// the rolls of both.
pub proof fn lemma_sum_law(a: Seq<char>, b: Seq<char>, rolls: Seq<u32>)
    requires
        rolls.len() >= dice_count(a) + dice_count(b),
        dice_value(a, rolls) is Some,
        dice_value(b, rolls.skip(dice_count(a) as int)) is Some,
        dice_value(a.push('+') + b, rolls) is Some,
    ensures
        dice_value(a.push('+') + b, rolls)->0 == dice_value(a, rolls)->0 + dice_value(
            b,
            rolls.skip(dice_count(a) as int),
        )->0,
        dice_count(a.push('+') + b) == dice_count(a) + dice_count(b),
{
    let t = a.push('+') + b;
    assert(t[a.len() as int] == '+');
    assert(t.contains('+'));
    lemma_split_concat(a, b, '+');
    let pa = split_on(a, '+');
    let pb = split_on(b, '+');
    lemma_term_as_sum(a, rolls);
    lemma_term_as_sum(b, rolls.skip(dice_count(a) as int));
    lemma_diffs_rolls_concat(pa, pb);
    lemma_sum_chain_concat(pa, pb, rolls);
}

pub proof fn lemma_atoms_zero_sided_fail(pieces: Seq<Seq<char>>, rolls: Seq<u32>)
    requires
        atoms_zero_sided(pieces),
    ensures
        diff_chain(pieces, rolls) is None,
    decreases pieces.len(),
{
    if pieces.len() == 1 {
        assert(pieces.drop_last() =~= Seq::<Seq<char>>::empty());
        assert(!atoms_zero_sided(pieces.drop_last()));
        assert(pieces.last() == pieces[0]);
    } else if atoms_zero_sided(pieces.drop_last()) {
        lemma_atoms_zero_sided_fail(pieces.drop_last(), rolls);
    }
}

pub proof fn lemma_diffs_zero_sided_fail(pieces: Seq<Seq<char>>, rolls: Seq<u32>)
    requires
        diffs_zero_sided(pieces),
    ensures
        sum_chain(pieces, rolls) is None,
    decreases pieces.len(),
{
    let last = pieces.last();
    let r = rolls.skip(diffs_rolls(pieces.drop_last()) as int);
    if diffs_zero_sided(pieces.drop_last()) {
        lemma_diffs_zero_sided_fail(pieces.drop_last(), rolls);
    } else if last.contains('-') {
        lemma_atoms_zero_sided_fail(split_on(last, '-'), r);
    }
}

/// A term with a die without sides has no value, whatever the rolls: no
/// roll can be taken of such a die.
pub proof fn lemma_zero_sided_has_no_value(t: Seq<char>, rolls: Seq<u32>)
    requires
        has_zero_sided_die(t),
    ensures
        dice_value(t, rolls) is None,
{
    if t.contains('+') {
        lemma_diffs_zero_sided_fail(split_on(t, '+'), rolls);
    } else if t.contains('-') {
        lemma_atoms_zero_sided_fail(split_on(t, '-'), rolls);
    }
}

/// A single die `NdS` (a piece with neither `+` nor `-`) counts as having no
/// sides exactly where the text after its first `d` reads as the number 0;
/// a die whose sides read as a positive number, or are no number, can be
/// rolled.
pub proof fn lemma_single_die_zero_sided(a: Seq<char>)
    requires
        !a.contains('+'),
        !a.contains('-'),
        a.contains('d'),
    ensures
        split_once(a, 'd').1 is Some,
        has_zero_sided_die(a) <==> parse_u32_spec(split_once(a, 'd').1->0) == Some(0int),
        (parse_u32_spec(split_once(a, 'd').1->0) matches Some(k) && k > 0) ==> !has_zero_sided_die(a),
        parse_u32_spec(split_once(a, 'd').1->0) is None ==> !has_zero_sided_die(a),
{
    lemma_find_char(a, 'd');
    if find_char(a, 'd') is None {
        let j = choose|j: int| 0 <= j < a.len() && a[j] == 'd';
        assert(a[j] == 'd');
    }
}

/// A difference of two single pieces is the value of the first less that of
/// the second, the second taking the rolls after those of the first; it has
/// no value where either has none or the difference passes the `i64` range.
pub proof fn lemma_difference_of_two(a: Seq<char>, b: Seq<char>, rolls: Seq<u32>)
    requires
        !a.contains('+'),
        !a.contains('-'),
        !b.contains('+'),
        !b.contains('-'),
    ensures
        dice_count(a.push('-') + b) == atom_rolls(a) + atom_rolls(b),
        match (atom_value(a, rolls), atom_value(b, rolls.skip(atom_rolls(a) as int))) {
            (Some(x), Some(y)) => dice_value(a.push('-') + b, rolls) == if i64::MIN <= x - y
                <= i64::MAX {
                Some(x - y)
            } else {
                None
            },
            _ => dice_value(a.push('-') + b, rolls) is None,
        },
{
    let t = a.push('-') + b;
    assert(t[a.len() as int] == '-');
    assert(t.contains('-'));
    assert(!t.contains('+')) by {
        if t.contains('+') {
            let j = choose|j: int| 0 <= j < t.len() && t[j] == '+';
            if j < a.len() {
                assert(a[j] == '+');
            } else if j > a.len() {
                assert(b[j - a.len() - 1] == '+');
            }
        }
    }
    lemma_split_append(a, b, '-');
    lemma_split_free(a, '-');
    let ps = split_on(t, '-');
    assert(ps =~= seq![a, b]);
    assert(ps.drop_last() =~= seq![a]);
    assert(seq![a].drop_last() =~= Seq::<Seq<char>>::empty());
    assert(atoms_rolls(seq![a]) == atom_rolls(a));
    assert(atoms_rolls(ps) == atom_rolls(a) + atom_rolls(b));
    assert(diff_chain(seq![a], rolls) == atom_value(a, rolls));
}

proof fn lemma_digits_lack(s: Seq<char>, c: char)
    requires
        all_digits(s),
        !is_digit(c),
    ensures
        !s.contains(c),
{
    if s.contains(c) {
        let j = choose|j: int| 0 <= j < s.len() && s[j] == c;
        assert(is_digit(s[j]));
    }
}

/// A die written `NdS` with decimal numbers `N` and `S` takes one roll and
/// is worth `N` times a face from 1 to `S`, namely `1 + roll % S`, where that
/// fits an `i64` (it has no value otherwise); with no sides it cannot be
/// rolled. Written `dS`, its number is 1.
pub proof fn lemma_die_reading(n: nat, k: nat, rolls: Seq<u32>)
    requires
        n <= i64::MAX,
        k <= u32::MAX,
        rolls.len() >= 1,
    ensures
        dice_count(decimal(n).push('d') + decimal(k)) == 1,
        k == 0 ==> has_zero_sided_die(decimal(n).push('d') + decimal(k)),
        k > 0 ==> dice_value(decimal(n).push('d') + decimal(k), rolls) == if n * (1 + (
        rolls[0] as int) % (k as int)) <= i64::MAX {
            Some(n * (1 + (rolls[0] as int) % (k as int)))
        } else {
            None
        },
        k > 0 ==> dice_value(seq!['d'] + decimal(k), rolls) == Some(1 + (rolls[0] as int) % (k as int)),
{
    lemma_decimal_digits(n);
    lemma_decimal_digits(k);
    let dn = decimal(n);
    let dk = decimal(k);
    let a = dn.push('d') + dk;
    lemma_digits_lack(dn, 'd');
    lemma_digits_lack(dn, '+');
    lemma_digits_lack(dn, '-');
    lemma_digits_lack(dk, '+');
    lemma_digits_lack(dk, '-');
    assert(a[dn.len() as int] == 'd');
    assert(!a.contains('+') && !a.contains('-')) by {
        if a.contains('+') || a.contains('-') {
            let j = choose|j: int| 0 <= j < a.len() && (a[j] == '+' || a[j] == '-');
            if j < dn.len() {
                assert(a[j] == dn[j]);
                assert(is_digit(dn[j]));
            } else if j > dn.len() {
                assert(a[j] == dk[j - dn.len() - 1]);
                assert(is_digit(dk[j - dn.len() - 1]));
            }
        }
    }
    lemma_split_once(dn, dk, 'd');
    lemma_parse_decimal_roundtrip(n as int, i64::MIN as int, i64::MAX as int);
    lemma_parse_decimal_roundtrip(k as int, 0, u32::MAX as int);
    assert(decimal_int(n as int) == dn);
    assert(decimal_int(k as int) == dk);
    assert(die_multiplier(a) == n);
    assert(die_sides(a) == k);
    let b = seq!['d'] + dk;
    assert(b =~= Seq::<char>::empty().push('d') + dk);
    assert(!Seq::<char>::empty().contains('d'));
    lemma_split_once(Seq::<char>::empty(), dk, 'd');
    assert(b[0] == 'd');
    assert(!b.contains('+') && !b.contains('-')) by {
        if b.contains('+') || b.contains('-') {
            let j = choose|j: int| 0 <= j < b.len() && (b[j] == '+' || b[j] == '-');
            if j > 0 {
                assert(b[j] == dk[j - 1]);
                assert(is_digit(dk[j - 1]));
            }
        }
    }
    assert(parse_i64_spec(Seq::<char>::empty()) is None);
    assert(die_multiplier(b) == 1);
    assert(die_sides(b) == k);
    let f = 1 + (rolls[0] as int) % (k as int);
    if k > 0 {
        assert(1 <= f <= k);
        assert(0 <= n * f) by (nonlinear_arith)
            requires
                1 <= f,
        ;
    }
}

/// Taking the spaces out of a term leaves no space, and a term without
/// spaces is left as it is.
pub proof fn lemma_without_spaces(t: Seq<char>)
    ensures
        !without_spaces(t).contains(' '),
        !t.contains(' ') ==> without_spaces(t) == t,
    decreases t.len(),
{
    let p = seq![' '];
    let e = Seq::<char>::empty();
    if t.len() >= 1 {
        lemma_without_spaces(t.skip(1));
        let rest = without_spaces(t.skip(1));
        if t.take(1) == p {
            assert(without_spaces(t) == rest);
            assert(t[0] == ' ') by {
                assert(t.take(1)[0] == t[0]);
            }
        } else {
            assert(t[0] != ' ') by {
                if t[0] == ' ' {
                    assert(t.take(1) =~= p);
                }
            }
            assert(without_spaces(t) == seq![t[0]] + rest);
            assert(!(seq![t[0]] + rest).contains(' ')) by {
                let w = seq![t[0]] + rest;
                if w.contains(' ') {
                    let j = choose|j: int| 0 <= j < w.len() && w[j] == ' ';
                    if j > 0 {
                        assert(rest[j - 1] == ' ');
                    }
                }
            }
            if !t.contains(' ') {
                assert(!t.skip(1).contains(' ')) by {
                    if t.skip(1).contains(' ') {
                        let j = choose|j: int| 0 <= j < t.skip(1).len() && t.skip(1)[j] == ' ';
                        assert(t[j + 1] == ' ');
                    }
                }
                assert(seq![t[0]] + t.skip(1) =~= t);
            }
        }
    } else {
        assert(without_spaces(t) == t);
    }
}

/// A single die written as a decimal number has that many sides; one
/// written as no number (the empty text among them) has six.
pub proof fn lemma_single_die_sides(k: nat, t: Seq<char>)
    requires
        k <= u64::MAX,
    ensures
        single_die_sides(decimal(k)) == k,
        parse_u64_spec(t) is None ==> single_die_sides(t) == 6,
        single_die_sides(Seq::<char>::empty()) == 6,
{
    lemma_parse_decimal_roundtrip(k as int, 0, u64::MAX as int);
    assert(decimal_int(k as int) == decimal(k));
}

/// Taking the spaces out of a term before rolling it changes nothing.
pub proof fn lemma_roll_ignores_spaces(t: Seq<char>, rolls: Seq<u32>)
    ensures
        roll_text(without_spaces(t), rolls) == roll_text(t, rolls),
        dice_count(without_spaces(without_spaces(t))) == dice_count(without_spaces(t)),
{
    lemma_remove_char_idempotent(t, ' ');
}

// ---- randomness ----

/// A random `u32` from `rand::random::<u32>()`; nothing is promised of its
/// value, which comes from the thread's random number generator.
#[verifier::external_body]
fn random_u32() -> u32 {
    rand::random::<u32>()
}

/// A random `u64` from `rand::random::<u64>()`; nothing is promised of its
/// value, which comes from the thread's random number generator.
#[verifier::external_body]
fn random_u64() -> u64 {
    rand::random::<u64>()
}

// ---- evaluation ----

/// The value of a piece with neither `+` nor `-`, with `rolls[at]` as the
/// roll of its die.
fn eval_atom(a: &Vec<char>, rolls: &Vec<u32>, at: usize) -> (r: Option<i64>)
    requires
        at + atom_rolls(a@) <= rolls@.len(),
    ensures
        opt_i64(r) == atom_value(a@, rolls@.skip(at as int)),
{
    if contains_char(a, 'd') {
        let (num_text, sides_text) = split_once_chars(a, 'd');
        let num: i64 = match parse_i64(&num_text) {
            Some(v) => v,
            None => 1,
        };
        let sides: u32 = match sides_text {
            Some(s) => match parse_u32(&s) {
                Some(v) => v,
                None => 1,
            },
            None => 1,
        };
        assert(num == die_multiplier(a@));
        assert(sides == die_sides(a@));
        if sides == 0 {
            return None;
        }
        let x = rolls[at];
        assert(x == rolls@.skip(at as int)[0]);
        let face: u32 = 1 + x % sides;
        assert(-0x8000_0000_0000_0000_0000_0000 <= num * face <= 0x8000_0000_0000_0000_0000_0000)
            by (nonlinear_arith)
            requires
                i64::MIN <= num <= i64::MAX,
                1 <= face <= u32::MAX,
        ;
        let product: i128 = num as i128 * face as i128;
        assert(product == num * face) by (nonlinear_arith)
            requires
                product == num as i128 * face as i128,
        ;
        if product < i64::MIN as i128 || product > i64::MAX as i128 {
            None
        } else {
            Some(product as i64)
        }
    } else {
        match parse_i64(a) {
            Some(v) => Some(v),
            None => Some(0),
        }
    }
}

/// The value of a piece without `+`, with its rolls from `rolls[at]` on.
fn eval_diff(t: &Vec<char>, rolls: &Vec<u32>, at: usize) -> (r: Option<i64>)
    requires
        at + diff_rolls(t@) <= rolls@.len(),
    ensures
        opt_i64(r) == diff_value(t@, rolls@.skip(at as int)),
{
    if !contains_char(t, '-') {
        return eval_atom(t, rolls, at);
    }
    let pieces = split_chars(t, '-');
    let ghost ps = split_on(t@, '-');
    let ghost rs = rolls@.skip(at as int);
    proof {
        lemma_split_on_nonempty(t@, '-');
        lemma_diff_chain_first(ps, rs);
    }
    assert(char_vec_views(pieces@)[0] == pieces@[0]@);
    let first = eval_atom(&pieces[0], rolls, at);
    let mut acc: i64 = match first {
        Some(v) => v,
        None => {
            proof {
                lemma_diff_chain_fails(ps, rs, 1);
            }
            return None;
        },
    };
    let n_rolls = rolls.len();
    assert(pieces@[0]@ == ps[0]);
    let mut pos: usize = if contains_char(&pieces[0], 'd') {
        at + 1
    } else {
        at
    };
    let mut i: usize = 1;
    while i < pieces.len()
        invariant
            1 <= i <= pieces.len(),
            char_vec_views(pieces@) == ps,
            rs == rolls@.skip(at as int),
            diff_chain(ps.take(i as int), rs) == Some(acc as int),
            pos == at + atoms_rolls(ps.take(i as int)),
            at + atoms_rolls(ps) <= rolls@.len(),
            n_rolls == rolls@.len(),
            diff_value(t@, rs) == diff_chain(ps, rs),
        decreases pieces.len() - i,
    {
        proof {
            lemma_diff_chain_step(ps, rs, i as int);
            lemma_skip_skip(rolls@, at as int, atoms_rolls(ps.take(i as int)) as int);
        }
        assert(char_vec_views(pieces@)[i as int] == pieces@[i as int]@);
        let v = eval_atom(&pieces[i], rolls, pos);
        match v {
            None => {
                proof {
                    lemma_diff_chain_fails(ps, rs, i + 1);
                }
                return None;
            },
            Some(b) => {
                let d: i128 = acc as i128 - b as i128;
                if d < i64::MIN as i128 || d > i64::MAX as i128 {
                    proof {
                        lemma_diff_chain_fails(ps, rs, i + 1);
                    }
                    return None;
                }
                acc = d as i64;
            },
        }
        if contains_char(&pieces[i], 'd') {
            pos = pos + 1;
        }
        i = i + 1;
    }
    assert(ps.take(pieces.len() as int) =~= ps);
    Some(acc)
}

/// The value of the term `t`, with its rolls from `rolls[at]` on.
fn eval_term(t: &Vec<char>, rolls: &Vec<u32>, at: usize) -> (r: Option<i64>)
    requires
        at + dice_count(t@) <= rolls@.len(),
    ensures
        opt_i64(r) == dice_value(t@, rolls@.skip(at as int)),
{
    if !contains_char(t, '+') {
        return eval_diff(t, rolls, at);
    }
    let pieces = split_chars(t, '+');
    let ghost ps = split_on(t@, '+');
    let ghost rs = rolls@.skip(at as int);
    let n_rolls = rolls.len();
    let mut acc: i64 = 0;
    let mut pos: usize = at;
    let mut i: usize = 0;
    assert(ps.take(0) =~= Seq::<Seq<char>>::empty());
    while i < pieces.len()
        invariant
            i <= pieces.len(),
            char_vec_views(pieces@) == ps,
            rs == rolls@.skip(at as int),
            sum_chain(ps.take(i as int), rs) == Some(acc as int),
            pos == at + diffs_rolls(ps.take(i as int)),
            at + diffs_rolls(ps) <= rolls@.len(),
            n_rolls == rolls@.len(),
            dice_value(t@, rs) == sum_chain(ps, rs),
        decreases pieces.len() - i,
    {
        proof {
            lemma_sum_chain_step(ps, rs, i as int);
            lemma_skip_skip(rolls@, at as int, diffs_rolls(ps.take(i as int)) as int);
        }
        assert(char_vec_views(pieces@)[i as int] == pieces@[i as int]@);
        let n = count_diff_rolls(&pieces[i]);
        let v = eval_diff(&pieces[i], rolls, pos);
        match v {
            None => {
                proof {
                    lemma_sum_chain_fails(ps, rs, i + 1);
                }
                return None;
            },
            Some(b) => {
                let s: i128 = acc as i128 + b as i128;
                if s < i64::MIN as i128 || s > i64::MAX as i128 {
                    proof {
                        lemma_sum_chain_fails(ps, rs, i + 1);
                    }
                    return None;
                }
                acc = s as i64;
            },
        }
        pos = pos + n;
        i = i + 1;
    }
    assert(ps.take(pieces.len() as int) =~= ps);
    Some(acc)
}

/// The number of rolls a piece without `+` takes.
fn count_diff_rolls(t: &Vec<char>) -> (r: usize)
    requires
        diff_rolls(t@) <= usize::MAX,
    ensures
        r == diff_rolls(t@),
{
    if !contains_char(t, '-') {
        return if contains_char(t, 'd') {
            1
        } else {
            0
        };
    }
    let pieces = split_chars(t, '-');
    let ghost ps = split_on(t@, '-');
    let mut n: usize = 0;
    let mut i: usize = 0;
    assert(ps.take(0) =~= Seq::<Seq<char>>::empty());
    while i < pieces.len()
        invariant
            i <= pieces.len(),
            char_vec_views(pieces@) == ps,
            n == atoms_rolls(ps.take(i as int)),
            atoms_rolls(ps) <= usize::MAX,
        decreases pieces.len() - i,
    {
        proof {
            lemma_atoms_rolls_take(ps, i as int);
        }
        assert(char_vec_views(pieces@)[i as int] == pieces@[i as int]@);
        if contains_char(&pieces[i], 'd') {
            n = n + 1;
        }
        i = i + 1;
    }
    assert(ps.take(pieces.len() as int) =~= ps);
    n
}

/// Appends one random roll to `rolls` for each die in the piece `t`, which
/// holds no `+`.
fn draw_diff_rolls(t: &Vec<char>, rolls: &mut Vec<u32>)
    ensures
        final(rolls)@.len() == old(rolls)@.len() + diff_rolls(t@),
{
    if !contains_char(t, '-') {
        if contains_char(t, 'd') {
            rolls.push(random_u32());
        }
        return;
    }
    let pieces = split_chars(t, '-');
    let ghost ps = split_on(t@, '-');
    let mut i: usize = 0;
    assert(ps.take(0) =~= Seq::<Seq<char>>::empty());
    while i < pieces.len()
        invariant
            i <= pieces.len(),
            char_vec_views(pieces@) == ps,
            rolls@.len() == old(rolls)@.len() + atoms_rolls(ps.take(i as int)),
        decreases pieces.len() - i,
    {
        proof {
            lemma_atoms_rolls_take(ps, i as int);
        }
        assert(char_vec_views(pieces@)[i as int] == pieces@[i as int]@);
        if contains_char(&pieces[i], 'd') {
            rolls.push(random_u32());
        }
        i = i + 1;
    }
    assert(ps.take(pieces.len() as int) =~= ps);
}

/// Appends one random roll to `rolls` for each die in the term `t`.
fn draw_rolls(t: &Vec<char>, rolls: &mut Vec<u32>)
    ensures
        final(rolls)@.len() == old(rolls)@.len() + dice_count(t@),
{
    if !contains_char(t, '+') {
        draw_diff_rolls(t, rolls);
        return;
    }
    let pieces = split_chars(t, '+');
    let ghost ps = split_on(t@, '+');
    proof {
        lemma_split_pieces_free_of_sep(t@, '+');
    }
    let mut i: usize = 0;
    assert(ps.take(0) =~= Seq::<Seq<char>>::empty());
    while i < pieces.len()
        invariant
            i <= pieces.len(),
            char_vec_views(pieces@) == ps,
            rolls@.len() == old(rolls)@.len() + diffs_rolls(ps.take(i as int)),
        decreases pieces.len() - i,
    {
        proof {
            lemma_diffs_rolls_take(ps, i as int);
        }
        assert(char_vec_views(pieces@)[i as int] == pieces@[i as int]@);
        draw_diff_rolls(&pieces[i], rolls);
        i = i + 1;
    }
    assert(ps.take(pieces.len() as int) =~= ps);
}

/// Whether the piece `a`, which holds neither `+` nor `-`, is a die with no
/// sides.
fn atom_is_zero_sided(a: &Vec<char>) -> (r: bool)
    ensures
        r == atom_zero_sided(a@),
{
    if !contains_char(a, 'd') {
        return false;
    }
    let (_, sides_text) = split_once_chars(a, 'd');
    let sides: u32 = match sides_text {
        Some(s) => match parse_u32(&s) {
            Some(v) => v,
            None => 1,
        },
        None => 1,
    };
    sides == 0
}

/// Whether the piece `t`, which holds no `+`, has a die with no sides.
fn diff_is_zero_sided(t: &Vec<char>) -> (r: bool)
    ensures
        r == diff_zero_sided(t@),
{
    if !contains_char(t, '-') {
        return atom_is_zero_sided(t);
    }
    let pieces = split_chars(t, '-');
    let ghost ps = split_on(t@, '-');
    let mut found = false;
    let mut i: usize = 0;
    assert(ps.take(0) =~= Seq::<Seq<char>>::empty());
    while i < pieces.len()
        invariant
            i <= pieces.len(),
            char_vec_views(pieces@) == ps,
            found == atoms_zero_sided(ps.take(i as int)),
        decreases pieces.len() - i,
    {
        assert(ps.take(i + 1).drop_last() =~= ps.take(i as int));
        assert(char_vec_views(pieces@)[i as int] == pieces@[i as int]@);
        let z = atom_is_zero_sided(&pieces[i]);
        found = found || z;
        i = i + 1;
    }
    assert(ps.take(pieces.len() as int) =~= ps);
    found
}

impl DiceBot {
    /// Whether the term `term` has a die with no sides (such as `2d0`).
    pub fn has_zero_sided_die(term: &String) -> (r: bool)
        ensures
            r == has_zero_sided_die(term@),
    {
        let t = chars_of(term.as_str());
        if !contains_char(&t, '+') {
            return diff_is_zero_sided(&t);
        }
        let pieces = split_chars(&t, '+');
        let ghost ps = split_on(t@, '+');
        let mut found = false;
        let mut i: usize = 0;
        assert(ps.take(0) =~= Seq::<Seq<char>>::empty());
        while i < pieces.len()
            invariant
                i <= pieces.len(),
                char_vec_views(pieces@) == ps,
                found == diffs_zero_sided(ps.take(i as int)),
            decreases pieces.len() - i,
        {
            assert(ps.take(i + 1).drop_last() =~= ps.take(i as int));
            assert(char_vec_views(pieces@)[i as int] == pieces@[i as int]@);
            let z = diff_is_zero_sided(&pieces[i]);
            found = found || z;
            i = i + 1;
        }
        assert(ps.take(pieces.len() as int) =~= ps);
        found
    }

    /// The number of sides that `dice` asks of a single die (6 where it is no
    /// number).
    pub fn single_die_sides(dice: &String) -> (r: u64)
        ensures
            r == single_die_sides(dice@),
    {
        match parse_u64(&chars_of(dice.as_str())) {
            Some(v) => v,
            None => 6,
        }
    }

    /// The answer to a single die with `dice` sides (6 where `dice` is no
    /// number), given the random number `x`: `1 + x % sides`, in decimal.
    pub fn dice_with(dice: String, x: u64) -> (r: String)
        requires
            single_die_sides(dice@) != 0,
        ensures
            r@ == decimal((1 + (x as int) % single_die_sides(dice@)) as nat),
    {
        let sides = DiceBot::single_die_sides(&dice);
        let face: u64 = 1 + x % sides;
        string_of(&u64_decimal(face))
    }

    /// A roll of a single die with `dice` sides (6 where `dice` is no
    /// number): a number from 1 to the number of sides, in decimal.
    pub fn dice(dice: String) -> (r: String)
        requires
            single_die_sides(dice@) != 0,
        ensures
            exists|v: nat| 1 <= v <= single_die_sides(dice@) && r@ == decimal(v),
    {
        let x = random_u64();
        let r = DiceBot::dice_with(dice, x);
        let ghost v = (1 + (x as int) % single_die_sides(dice@)) as nat;
        assert(1 <= v <= single_die_sides(dice@));
        assert(r@ == decimal(v));
        r
    }

    /// The value of the dice term `term` with the given rolls, one for each
    /// die, taken from left to right; `None` where a step of the sum does
    /// not fit an `i64`. A term with a die without sides cannot be rolled.
    pub fn calc_dice_with(term: String, rolls: &Vec<u32>) -> (r: Option<i64>)
        requires
            dice_count(term@) <= rolls@.len(),
            !has_zero_sided_die(term@),
        ensures
            opt_i64(r) == dice_value(term@, rolls@),
    {
        let t = chars_of(term.as_str());
        assert(rolls@.skip(0) =~= rolls@);
        eval_term(&t, rolls, 0)
    }

    /// The value of the dice term `term` with random rolls; `None` where a
    /// step of the sum does not fit an `i64` for the rolls drawn. A term with
    /// a die without sides cannot be rolled.
    pub fn calc_dice(term: String) -> (r: Option<i64>)
        requires
            !has_zero_sided_die(term@),
        ensures
            exists|rolls: Seq<u32>|
                rolls.len() == dice_count(term@) && opt_i64(r) == dice_value(term@, rolls),
    {
        let t = chars_of(term.as_str());
        let mut rolls: Vec<u32> = Vec::new();
        draw_rolls(&t, &mut rolls);
        DiceBot::calc_dice_with(term, &rolls)
    }

    /// The term without its spaces.
    pub fn strip_spaces(dice: &String) -> (r: String)
        ensures
            r@ == without_spaces(dice@),
    {
        let mut pat: Vec<char> = Vec::new();
        pat.push(' ');
        assert(pat@ =~= seq![' ']);
        let stripped = replace_chars(&chars_of(dice.as_str()), &pat, &Vec::new());
        assert(stripped@ == without_spaces(dice@));
        string_of(&stripped)
    }

    /// The answer to the dice term `dice` with the given rolls: its value in
    /// decimal, once the spaces are taken out; `None` where a step of the sum
    /// does not fit an `i64`.
    pub fn roll_with(dice: String, rolls: &Vec<u32>) -> (r: Option<String>)
        requires
            dice_count(without_spaces(dice@)) <= rolls@.len(),
            !has_zero_sided_die(without_spaces(dice@)),
        ensures
            opt_text(r) == roll_text(dice@, rolls@),
    {
        let term = DiceBot::strip_spaces(&dice);
        match DiceBot::calc_dice_with(term, rolls) {
            Some(v) => Some(string_of(&i64_decimal(v))),
            None => None,
        }
    }

    /// The answer to the dice term `dice`, rolled with random rolls: its
    /// value in decimal, once the spaces are taken out; `None` where a step of
    /// the sum does not fit an `i64` for the rolls drawn.
    pub fn roll(dice: String) -> (r: Option<String>)
        requires
            !has_zero_sided_die(without_spaces(dice@)),
        ensures
            exists|rolls: Seq<u32>|
                rolls.len() == dice_count(without_spaces(dice@)) && opt_text(r) == roll_text(
                    dice@,
                    rolls,
                ),
    {
        let term = DiceBot::strip_spaces(&dice);
        let t = chars_of(term.as_str());
        let mut rolls: Vec<u32> = Vec::new();
        draw_rolls(&t, &mut rolls);
        DiceBot::roll_with(dice, &rolls)
    }
}

} // verus!
