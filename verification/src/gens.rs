//! The generation directory: how the logs are named and which generations a
//! directory holds.

use vstd::prelude::*;
use vstd::string::{StrSliceExecFns, StringExecFns};

verus! {

/// The character of the decimal digit `d`.
pub open spec fn digit(d: nat) -> char {
    if d == 0 {
        '0'
    } else if d == 1 {
        '1'
    } else if d == 2 {
        '2'
    } else if d == 3 {
        '3'
    } else if d == 4 {
        '4'
    } else if d == 5 {
        '5'
    } else if d == 6 {
        '6'
    } else if d == 7 {
        '7'
    } else if d == 8 {
        '8'
    } else {
        '9'
    }
}

/// The number that a decimal digit stands for; 10 for any other character.
pub open spec fn digit_value(c: char) -> nat {
    if c == '0' {
        0
    } else if c == '1' {
        1
    } else if c == '2' {
        2
    } else if c == '3' {
        3
    } else if c == '4' {
        4
    } else if c == '5' {
        5
    } else if c == '6' {
        6
    } else if c == '7' {
        7
    } else if c == '8' {
        8
    } else if c == '9' {
        9
    } else {
        10
    }
}

/// The decimal numeral of `n`, without leading zeros.
pub open spec fn decimal(n: nat) -> Seq<char>
    decreases n,
{
    if n < 10 {
        seq![digit(n)]
    } else {
        decimal(n / 10).push(digit(n % 10))
    }
}

/// The number that a string of decimal digits stands for.
pub open spec fn value(s: Seq<char>) -> nat
    decreases s.len(),
{
    if s.len() == 0 {
        0
    } else {
        value(s.drop_last()) * 10 + digit_value(s.last())
    }
}

/// The name of the log of generation `gen`.
pub open spec fn log_name(gen: u64) -> Seq<char> {
    decimal(gen as nat) + ".log"@
}

/// The name of the file that a compaction writes for generation `gen`
/// before the file becomes a log.
pub open spec fn tmp_name(gen: u64) -> Seq<char> {
    decimal(gen as nat) + ".tmp"@
}

/// A numeral consists of digits, is not empty, and stands for its number.
pub proof fn decimal_value(n: nat)
    ensures
        decimal(n).len() >= 1,
        forall|i: int| 0 <= i < decimal(n).len() ==> digit_value(#[trigger] decimal(n)[i]) < 10,
        value(decimal(n)) == n,
    decreases n,
{
    if n < 10 {
        assert(decimal(n).drop_last() =~= Seq::<char>::empty());
        assert(value(decimal(n).drop_last()) == 0);
    } else {
        decimal_value(n / 10);
        assert(decimal(n).drop_last() =~= decimal(n / 10));
        assert forall|i: int| 0 <= i < decimal(n).len() implies digit_value(
            #[trigger] decimal(n)[i],
        ) < 10 by {
            if i < decimal(n).len() - 1 {
                assert(decimal(n)[i] == decimal(n / 10)[i]);
            }
        }
    }
}

/// The number of a prefix of a digit string is at most the number of the
/// whole.
pub proof fn value_prefix(s: Seq<char>, i: int)
    requires
        0 <= i <= s.len(),
    ensures
        value(s.take(i)) <= value(s),
    decreases s.len() - i,
{
    if i == s.len() {
        assert(s.take(i) =~= s);
    } else {
        value_prefix(s, i + 1);
        assert(s.take(i + 1).drop_last() =~= s.take(i));
        assert(value(s.take(i + 1)) >= value(s.take(i))) by (nonlinear_arith)
            requires
                value(s.take(i + 1)) == value(s.take(i)) * 10 + digit_value(s.take(i + 1).last()),
        ;
    }
}

/// Different generations have different log names.
pub proof fn log_name_injective(a: u64, b: u64)
    requires
        log_name(a) == log_name(b),
    ensures
        a == b,
{
    decimal_value(a as nat);
    decimal_value(b as nat);
    let la = decimal(a as nat).len() as int;
    let lb = decimal(b as nat).len() as int;
    assert(log_name(a).len() == la + ".log"@.len());
    assert(log_name(b).len() == lb + ".log"@.len());
    assert(log_name(a).take(la) =~= decimal(a as nat));
    assert(log_name(b).take(lb) =~= decimal(b as nat));
}

fn digit_text(d: u64) -> (text: &'static str)
    requires
        d < 10,
    ensures
        text@ == seq![digit(d as nat)],
{
    proof {
        reveal_strlit("0");
        reveal_strlit("1");
        reveal_strlit("2");
        reveal_strlit("3");
        reveal_strlit("4");
        reveal_strlit("5");
        reveal_strlit("6");
        reveal_strlit("7");
        reveal_strlit("8");
        reveal_strlit("9");
    }
    let text = if d == 0 {
        "0"
    } else if d == 1 {
        "1"
    } else if d == 2 {
        "2"
    } else if d == 3 {
        "3"
    } else if d == 4 {
        "4"
    } else if d == 5 {
        "5"
    } else if d == 6 {
        "6"
    } else if d == 7 {
        "7"
    } else if d == 8 {
        "8"
    } else {
        "9"
    };
    proof {
        assert(text@ =~= seq![digit(d as nat)]);
    }
    text
}

/// Writes `n` as a decimal numeral.
pub fn render(n: u64) -> (text: String)
    ensures
        text@ == decimal(n as nat),
    decreases n,
{
    if n < 10 {
        String::from_str(digit_text(n))
    } else {
        let mut text = render(n / 10);
        text.append(digit_text(n % 10));
        proof {
            assert(text@ =~= decimal(n as nat));
        }
        text
    }
}

/// The name of the log of generation `gen`, inside the data directory.
pub fn log_path(gen: u64) -> (name: String)
    ensures
        name@ == log_name(gen),
{
    let mut name = render(gen);
    name.append(".log");
    name
}

/// The name of the file that a compaction writes for generation `gen`,
/// inside the data directory.
pub fn log_compact_path(gen: u64) -> (name: String)
    ensures
        name@ == tmp_name(gen),
{
    let mut name = render(gen);
    name.append(".tmp");
    name
}

fn digit_of(c: char) -> (d: u64)
    ensures
        d == digit_value(c),
{
    if c == '0' {
        0
    } else if c == '1' {
        1
    } else if c == '2' {
        2
    } else if c == '3' {
        3
    } else if c == '4' {
        4
    } else if c == '5' {
        5
    } else if c == '6' {
        6
    } else if c == '7' {
        7
    } else if c == '8' {
        8
    } else if c == '9' {
        9
    } else {
        10
    }
}

/// The generation whose log is named `name`; `None` where `name` is no log
/// name: a decimal numeral without leading zeros, followed by `.log`.
pub fn parse_gen(name: &String) -> (found: Option<u64>)
    ensures
        match found {
            Some(gen) => name@ == log_name(gen),
            None => forall|gen: u64| name@ != log_name(gen),
        },
{
    proof {
        reveal_strlit(".log");
    }
    let text = name.as_str();
    let n = text.unicode_len();
    if n < 5 {
        proof {
            assert forall|gen: u64| name@ != log_name(gen) by {
                decimal_value(gen as nat);
            }
        }
        return None;
    }
    let digits = n - 4;
    let mut acc: u64 = 0;
    let mut i: usize = 0;
    while i < digits
        invariant
            text@ == name@,
            n == name@.len(),
            digits == n - 4,
            ".log"@.len() == 4,
            i <= digits,
            acc == value(name@.take(i as int)),
        decreases digits - i,
    {
        let d = digit_of(text.get_char(i));
        proof {
            assert(name@.take(i + 1).drop_last() =~= name@.take(i as int));
            assert(name@.take(i + 1).last() == name@[i as int]);
        }
        if d >= 10 || acc > (u64::MAX - d) / 10 {
            proof {
                assert forall|gen: u64| name@ != log_name(gen) by {
                    if name@ == log_name(gen) {
                        decimal_value(gen as nat);
                        let numeral = decimal(gen as nat);
                        assert(name@.take(digits as int) =~= numeral);
                        assert(numeral[i as int] == name@[i as int]);
                        value_prefix(numeral, i + 1);
                        assert(numeral.take(i + 1) =~= name@.take(i + 1));
                    }
                }
            }
            return None;
        }
        acc = acc * 10 + d;
        i += 1;
    }
    let rendered = log_path(acc);
    if rendered == *name {
        Some(acc)
    } else {
        proof {
            assert forall|gen: u64| name@ != log_name(gen) by {
                if name@ == log_name(gen) {
                    decimal_value(gen as nat);
                    assert(name@.take(digits as int) =~= decimal(gen as nat));
                }
            }
        }
        None
    }
}

/// Whether `gens` rises strictly.
pub open spec fn rising(gens: Seq<u64>) -> bool {
    forall|i: int, j: int| 0 <= i < j < gens.len() ==> gens[i] < gens[j]
}

/// The generations that have a log among the file names `names`, in rising
/// order. Names that are no log names are passed over.
pub fn sorted_gen_list(names: &Vec<String>) -> (gens: Vec<u64>)
    ensures
        rising(gens@),
        forall|gen: u64|
            gens@.contains(gen) <==> exists|i: int|
                0 <= i < names@.len() && #[trigger] names@[i]@ == log_name(gen),
{
    let mut gens: Vec<u64> = Vec::new();
    let mut i: usize = 0;
    while i < names.len()
        invariant
            i <= names@.len(),
            rising(gens@),
            forall|gen: u64|
                gens@.contains(gen) <==> exists|k: int|
                    0 <= k < i && #[trigger] names@[k]@ == log_name(gen),
        decreases names@.len() - i,
    {
        let ghost before = gens@;
        match parse_gen(&names[i]) {
            Some(gen) => {
                let mut at: usize = 0;
                while at < gens.len() && gens[at] < gen
                    invariant
                        at <= gens@.len(),
                        forall|k: int| 0 <= k < at ==> gens@[k] < gen,
                    decreases gens@.len() - at,
                {
                    at += 1;
                }
                if at < gens.len() && gens[at] == gen {
                    proof {
                        assert(before.contains(gen));
                    }
                } else {
                    gens.insert(at, gen);
                    proof {
                        assert(gens@[at as int] == gen);
                        assert forall|a: int, b: int| 0 <= a < b < gens@.len() implies gens@[a]
                            < gens@[b] by {
                            let a0 = if a < at { a } else { a - 1 };
                            let b0 = if b < at { b } else { b - 1 };
                            if a != at && b != at {
                                assert(before[a0] < before[b0]);
                            } else if a == at {
                                assert(gens@[b] == before[b0]);
                                if b0 > at {
                                    assert(before[at as int] < before[b0]);
                                }
                            } else {
                                assert(gens@[a] == before[a0]);
                            }
                        }
                        assert forall|g: u64| before.contains(g) implies gens@.contains(g) by {
                            let w = before.index_of(g);
                            let w1 = if w < at { w } else { w + 1 };
                            assert(gens@[w1] == g);
                        }
                        assert forall|g: u64| gens@.contains(g) implies before.contains(g) || g
                            == gen by {
                            let w = gens@.index_of(g);
                            if w != at {
                                let w0 = if w < at { w } else { w - 1 };
                                assert(before[w0] == g);
                            }
                        }
                    }
                }
                proof {
                    assert forall|g: u64|
                        gens@.contains(g) <==> exists|k: int|
                            0 <= k < i + 1 && #[trigger] names@[k]@ == log_name(g) by {
                        if gens@.contains(g) {
                            if g == gen {
                                assert(names@[i as int]@ == log_name(g));
                            } else {
                                assert(before.contains(g));
                            }
                        }
                        if exists|k: int| 0 <= k < i + 1 && #[trigger] names@[k]@ == log_name(g) {
                            let k = choose|k: int|
                                0 <= k < i + 1 && #[trigger] names@[k]@ == log_name(g);
                            if k == i {
                                log_name_injective(g, gen);
                            } else {
                                assert(before.contains(g));
                            }
                        }
                    }
                }
            },
            None => {
                proof {
                    assert forall|g: u64|
                        gens@.contains(g) <==> exists|k: int|
                            0 <= k < i + 1 && #[trigger] names@[k]@ == log_name(g) by {
                        if exists|k: int| 0 <= k < i + 1 && #[trigger] names@[k]@ == log_name(g) {
                            let k = choose|k: int|
                                0 <= k < i + 1 && #[trigger] names@[k]@ == log_name(g);
                            assert(k != i);
                        }
                    }
                }
            },
        }
        i += 1;
    }
    gens
}

} // verus!
