use vstd::prelude::*;
use crate::parsing::{all_digits, digits_value, parse_usize_str};

verus! {

/// A dial instruction line that cannot be read.
#[derive(PartialEq, Eq, Structural, Debug, Copy, Clone)]
pub enum DialError {
    BadMagnitude,
}

/// The text after the direction letter is a well-formed i32 numeral:
/// an optional sign followed by at least one digit, in range.
pub open spec fn magnitude_ok(s: Seq<char>) -> bool {
    if s.len() == 0 {
        false
    } else if s[0] == '-' {
        s.len() >= 2 && all_digits(s.skip(1)) && digits_value(s.skip(1)) <= 0x8000_0000
    } else if s[0] == '+' {
        s.len() >= 2 && all_digits(s.skip(1)) && digits_value(s.skip(1)) <= i32::MAX
    } else {
        all_digits(s) && digits_value(s) <= i32::MAX
    }
}

pub open spec fn magnitude_val(s: Seq<char>) -> int {
    if s.len() > 0 && s[0] == '-' {
        -digits_value(s.skip(1))
    } else if s.len() > 0 && s[0] == '+' {
        digits_value(s.skip(1))
    } else {
        digits_value(s)
    }
}

/// Reads the numeric part of an instruction such as "L68" or "R48":
/// everything after the first character, as an i32.
pub fn get_magnitude(line: &str) -> (r: Result<i32, DialError>)
    ensures
        r is Ok <==> (line@.len() >= 1 && magnitude_ok(line@.skip(1))),
        r matches Ok(v) ==> v == magnitude_val(line@.skip(1)),
{
    let n = line.unicode_len();
    if n <= 1 {
        proof {
            if line@.len() >= 1 {
                assert(line@.skip(1) =~= Seq::<char>::empty());
            }
        }
        return Err(DialError::BadMagnitude);
    }
    let ghost rest = line@.skip(1);
    let c = line.get_char(1);
    let (neg, start): (bool, usize) = if c == '-' {
        (true, 2)
    } else if c == '+' {
        (false, 2)
    } else {
        (false, 1)
    };
    proof {
        assert(rest[0] == line@[1]);
        assert(line@.subrange(start as int, n as int) =~= rest.skip(start - 1));
        if start == 1 {
            assert(rest.skip(0) =~= rest);
        }
    }
    match parse_usize_str(line, start, n) {
        Some(v) => {
            if neg {
                if v <= 0x8000_0000 {
                    proof {
                        assert forall|k: int| 0 <= k < rest.len() - 1 implies crate::parsing::is_digit_char(
                            #[trigger] rest.skip(1)[k],
                        ) by {
                            assert(rest.skip(1)[k] == line@.subrange(2, n as int)[k]);
                        }
                    }
                    if v == 0x8000_0000 {
                        Ok(i32::MIN)
                    } else {
                        Ok(-(v as i32))
                    }
                } else {
                    Err(DialError::BadMagnitude)
                }
            } else {
                if v <= 0x7fff_ffff {
                    Ok(v as i32)
                } else {
                    Err(DialError::BadMagnitude)
                }
            }
        },
        None => {
            proof {
                if magnitude_ok(rest) {
                    if rest[0] == '-' || rest[0] == '+' {
                        assert(all_digits(line@.subrange(start as int, n as int)));
                        assert(digits_value(line@.subrange(start as int, n as int))
                            <= 0x8000_0000);
                    } else {
                        assert(all_digits(line@.subrange(start as int, n as int)));
                    }
                }
            }
            Err(DialError::BadMagnitude)
        },
    }
}

/// One turn of the dial: left or right by a nonnegative magnitude.
#[derive(PartialEq, Eq, Structural, Debug, Copy, Clone)]
pub enum Spin {
    Left,
    Right,
}

/// Dial position after a turn, starting from `number` in 0..100.
pub open spec fn dial_next(number: int, dir: Spin, mag: int) -> int {
    match dir {
        Spin::Left => (number - mag) % 100,
        Spin::Right => (number + mag) % 100,
    }
}

/// How often this turn points the dial at zero while turning: the
/// counting rule of the puzzle, not simply the multiples of 100
/// passed.
pub open spec fn zero_passes(number: int, dir: Spin, mag: int) -> int {
    match dir {
        Spin::Left => (if mag < number {
            0int
        } else if mag == number {
            1int
        } else {
            (mag - number) / 100
        }) + (if mag > number && number > 0 {
            1int
        } else {
            0int
        }),
        Spin::Right => (number + mag) / 100,
    }
}

/// Dial position after the first k turns, starting at 50.
pub open spec fn dial_number(moves: Seq<(Spin, i32)>, k: int) -> int
    decreases k,
{
    if k <= 0 {
        50
    } else {
        dial_next(dial_number(moves, k - 1), moves[k - 1].0, moves[k - 1].1 as int)
    }
}

/// How many of the first k turns end with the dial pointing at zero.
pub open spec fn ends_on_zero_count(moves: Seq<(Spin, i32)>, k: int) -> int
    decreases k,
{
    if k <= 0 {
        0
    } else {
        ends_on_zero_count(moves, k - 1) + (if dial_number(moves, k) == 0 {
            1int
        } else {
            0
        })
    }
}

/// Total zero passes over the first k turns.
pub open spec fn zero_pass_count(moves: Seq<(Spin, i32)>, k: int) -> int
    decreases k,
{
    if k <= 0 {
        0
    } else {
        zero_pass_count(moves, k - 1) + zero_passes(
            dial_number(moves, k - 1),
            moves[k - 1].0,
            moves[k - 1].1 as int,
        )
    }
}

proof fn lemma_dial_number_range(moves: Seq<(Spin, i32)>, k: int)
    ensures
        0 <= dial_number(moves, k) < 100,
    decreases k,
{
    if k > 0 {
        lemma_dial_number_range(moves, k - 1);
    }
}

proof fn lemma_zero_pass_bound(moves: Seq<(Spin, i32)>, k: int)
    requires
        0 <= k <= moves.len(),
        forall|i: int| 0 <= i < moves.len() ==> (#[trigger] moves[i]).1 >= 0,
    ensures
        0 <= zero_pass_count(moves, k) <= k * 0x1500000,
    decreases k,
{
    if k > 0 {
        lemma_zero_pass_bound(moves, k - 1);
        lemma_dial_number_range(moves, k - 1);
        let num = dial_number(moves, k - 1);
        let mag = moves[k - 1].1 as int;
        assert(0 <= zero_passes(num, moves[k - 1].0, mag) <= 0x1500000) by {
            assert(mag <= i32::MAX);
            assert((num + mag) / 100 <= (99 + i32::MAX as int) / 100);
            if mag > num {
                assert((mag - num) / 100 <= i32::MAX as int / 100);
            }
        }
    }
}

proof fn lemma_ends_on_zero_bound(moves: Seq<(Spin, i32)>, k: int)
    requires
        0 <= k,
    ensures
        0 <= ends_on_zero_count(moves, k) <= k,
    decreases k,
{
    if k > 0 {
        lemma_ends_on_zero_bound(moves, k - 1);
    }
}

proof fn lemma_left_mod(nm: int, mg: int)
    requires
        0 <= nm < 100,
        0 <= mg,
    ensures
        (nm + 100 - mg % 100) % 100 == (nm - mg) % 100,
{
    vstd::arithmetic::div_mod::lemma_sub_mod_noop(nm + 100, mg, 100);
    assert((nm + 100 - mg % 100) % 100 == ((nm + 100) % 100 - mg % 100) % 100);
    vstd::arithmetic::div_mod::lemma_sub_mod_noop(nm, mg, 100);
    assert((nm - mg) % 100 == (nm % 100 - mg % 100) % 100);
    vstd::arithmetic::div_mod::lemma_mod_add_multiples_vanish(nm, 100);
    assert((nm + 100) % 100 == nm % 100);
}

/// Runs the dial from 50 through all the turns; returns how many turns
/// end exactly on zero, and how many times zero is passed while
/// turning.
#[verifier::rlimit(60)]
pub fn dial_run(moves: &Vec<(Spin, i32)>) -> (r: (u64, u64))
    requires
        forall|i: int| 0 <= i < moves@.len() ==> (#[trigger] moves@[i]).1 >= 0,
        moves@.len() <= 0xffff_ffff,
    ensures
        r.0 == ends_on_zero_count(moves@, moves@.len() as int),
        r.1 == zero_pass_count(moves@, moves@.len() as int),
{
    let n = moves.len();
    let mut number: u64 = 50;
    let mut on_zero: u64 = 0;
    let mut passes: u64 = 0;
    let mut k: usize = 0;
    while k < n
        invariant
            n == moves@.len() <= 0xffff_ffff,
            forall|i: int| 0 <= i < moves@.len() ==> (#[trigger] moves@[i]).1 >= 0,
            k <= n,
            number == dial_number(moves@, k as int),
            0 <= number < 100,
            on_zero == ends_on_zero_count(moves@, k as int),
            passes == zero_pass_count(moves@, k as int),
        decreases n - k,
    {
        let (dir, mag_i) = moves[k];
        let mag = mag_i as u64;
        proof {
            lemma_zero_pass_bound(moves@, k + 1);
            lemma_zero_pass_bound(moves@, k as int);
            lemma_dial_number_range(moves@, k + 1);
            lemma_ends_on_zero_bound(moves@, k + 1);
            lemma_ends_on_zero_bound(moves@, k as int);
        }
        match dir {
            Spin::Left => {
                let red = mag % 100;
                if mag < number {
                } else if mag == number {
                    passes = passes + 1;
                } else {
                    passes = passes + (mag - number) / 100;
                }
                if mag > number && number > 0 {
                    passes = passes + 1;
                }
                let next = (number + 100 - red) % 100;
                proof {
                    lemma_left_mod(number as int, mag as int);
                }
                number = next;
            },
            Spin::Right => {
                passes = passes + (number + mag) / 100;
                number = (number + mag) % 100;
            },
        }
        if number == 0 {
            on_zero = on_zero + 1;
        }
        k += 1;
    }
    (on_zero, passes)
}

} // verus!
