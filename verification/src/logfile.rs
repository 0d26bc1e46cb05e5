//! The names of segment files.
//!
//! The segment of generation `gen` lives in the file `{gen}.log`, with the
//! generation written in decimal. Other files of the directory are no
//! segments and are passed over.

use vstd::prelude::*;
use vstd::string::{StrSliceExecFns, StringExecFns};

verus! {

/// The character of a decimal digit.
pub open spec fn digit_char(d: int) -> char {
    if d == 0 {
        '0'
    } else if d == 1 {
        '1'
    } else if d == 2 {
        '2'
    } else if d == 3 {
        '3'
    } else if d == 4 {
        '4'
    } else if d == 5 {
        '5'
    } else if d == 6 {
        '6'
    } else if d == 7 {
        '7'
    } else if d == 8 {
        '8'
    } else {
        '9'
    }
}

/// The value of a decimal digit, if the character is one.
pub open spec fn digit_value(c: char) -> Option<int> {
    if c == '0' {
        Some(0)
    } else if c == '1' {
        Some(1)
    } else if c == '2' {
        Some(2)
    } else if c == '3' {
        Some(3)
    } else if c == '4' {
        Some(4)
    } else if c == '5' {
        Some(5)
    } else if c == '6' {
        Some(6)
    } else if c == '7' {
        Some(7)
    } else if c == '8' {
        Some(8)
    } else if c == '9' {
        Some(9)
    } else {
        None
    }
}

/// A number in decimal, without leading zeros.
pub open spec fn decimal(n: nat) -> Seq<char>
    decreases n,
{
    if n < 10 {
        seq![digit_char(n as int)]
    } else {
        decimal(n / 10).push(digit_char((n % 10) as int))
    }
}

/// Every character is a decimal digit.
pub open spec fn all_digits(text: Seq<char>) -> bool {
    forall|i: int| 0 <= i < text.len() ==> digit_value(#[trigger] text[i]) is Some
}

/// The number that a string of digits stands for; leading zeros count for
/// nothing.
pub open spec fn decimal_value(text: Seq<char>) -> nat
    decreases text.len(),
{
    if text.len() == 0 {
        0
    } else {
        let last = match digit_value(text.last()) {
            Some(d) => d,
            None => 0,
        };
        (decimal_value(text.drop_last()) * 10 + last) as nat
    }
}

/// What follows the generation in a segment's file name.
pub open spec fn log_suffix() -> Seq<char> {
    ".log"@
}

/// The file name of a segment.
pub open spec fn log_name_of(gen: u64) -> Seq<char> {
    decimal(gen as nat) + log_suffix()
}

/// The generation that a file name stands for: the name is one or more
/// decimal digits followed by `.log`, and the number fits in 64 bits.
pub open spec fn name_gen(name: Seq<char>) -> Option<u64> {
    let stem = name.subrange(0, name.len() - 4);
    if name.len() > 4 && name.subrange(name.len() - 4, name.len() as int) == log_suffix()
        && all_digits(stem) && decimal_value(stem) <= u64::MAX {
        Some(decimal_value(stem) as u64)
    } else {
        None
    }
}

/// The path of a file in a directory: the two joined by one `/`, unless
/// the directory is empty or ends in `/` already.
pub open spec fn joined(dir: Seq<char>, name: Seq<char>) -> Seq<char> {
    if dir.len() == 0 || dir.last() == '/' {
        dir + name
    } else {
        dir + seq!['/'] + name
    }
}

/// A number written in decimal is made of digits and stands for itself.
pub proof fn lemma_decimal_value(n: nat)
    ensures
        decimal(n).len() > 0,
        all_digits(decimal(n)),
        decimal_value(decimal(n)) == n,
    decreases n,
{
    if n < 10 {
        let text = decimal(n);
        assert(text.drop_last() =~= Seq::<char>::empty());
        assert(decimal_value(text.drop_last()) == 0);
    } else {
        lemma_decimal_value(n / 10);
        let text = decimal(n);
        assert(text.drop_last() =~= decimal(n / 10));
        assert forall|i: int| 0 <= i < text.len() implies digit_value(#[trigger] text[i]) is Some by {
            if i < text.len() - 1 {
                assert(text[i] == decimal(n / 10)[i]);
            }
        }
    }
}

/// The name of a segment's file stands for the segment's generation.
pub proof fn lemma_log_name_gen(gen: u64)
    ensures
        name_gen(log_name_of(gen)) == Some(gen),
{
    reveal_strlit(".log");
    lemma_decimal_value(gen as nat);
    let name = log_name_of(gen);
    let stem = decimal(gen as nat);
    assert(name.len() == stem.len() + 4);
    assert(name.subrange(0, name.len() - 4) =~= stem);
    assert(name.subrange(name.len() - 4, name.len() as int) =~= log_suffix());
}

/// The digits read so far never stand for more than all of them.
proof fn lemma_value_grows(text: Seq<char>, k: int)
    requires
        0 <= k <= text.len(),
    ensures
        decimal_value(text.subrange(0, k)) <= decimal_value(text),
    decreases text.len() - k,
{
    if k < text.len() {
        let longer = text.subrange(0, k + 1);
        assert(longer.drop_last() =~= text.subrange(0, k));
        lemma_value_grows(text, k + 1);
    } else {
        assert(text.subrange(0, k) =~= text);
    }
}

/// The text of one decimal digit.
fn digit_str(d: u64) -> (text: &'static str)
    requires
        d < 10,
    ensures
        text@ == seq![digit_char(d as int)],
{
    proof {
        reveal_strlit("0");
        reveal_strlit("1");
        reveal_strlit("2");
        reveal_strlit("3");
        reveal_strlit("4");
        reveal_strlit("5");
        reveal_strlit("6");
        reveal_strlit("7");
        reveal_strlit("8");
        reveal_strlit("9");
    }
    let text = if d == 0 {
        "0"
    } else if d == 1 {
        "1"
    } else if d == 2 {
        "2"
    } else if d == 3 {
        "3"
    } else if d == 4 {
        "4"
    } else if d == 5 {
        "5"
    } else if d == 6 {
        "6"
    } else if d == 7 {
        "7"
    } else if d == 8 {
        "8"
    } else {
        "9"
    };
    assert(text@ =~= seq![digit_char(d as int)]);
    text
}

/// Writes a number in decimal.
pub fn decimal_string(n: u64) -> (text: String)
    ensures
        text@ == decimal(n as nat),
    decreases n,
{
    if n < 10 {
        String::from_str(digit_str(n))
    } else {
        let text = decimal_string(n / 10).concat(digit_str(n % 10));
        assert(text@ =~= decimal(n as nat));
        text
    }
}

/// The file name of the segment with the given generation.
pub fn log_name(gen: u64) -> (name: String)
    ensures
        name@ == log_name_of(gen),
{
    decimal_string(gen).concat(".log")
}

/// The path of the segment with the given generation in a directory.
pub fn log_path(path: &str, gen: u64) -> (file: String)
    ensures
        file@ == joined(path@, log_name_of(gen)),
{
    let name = log_name(gen);
    let len = path.unicode_len();
    let mut file = String::from_str(path);
    if len > 0 && path.get_char(len - 1) != '/' {
        proof {
            reveal_strlit("/");
        }
        file.append("/");
        assert(file@ =~= path@ + seq!['/']);
    }
    file.append(name.as_str());
    file
}

/// The value of a decimal digit, if the character is one.
fn digit_of(c: char) -> (d: Option<u64>)
    ensures
        match d {
            Some(d) => digit_value(c) == Some(d as int) && d < 10,
            None => digit_value(c) is None,
        },
{
    if c == '0' {
        Some(0)
    } else if c == '1' {
        Some(1)
    } else if c == '2' {
        Some(2)
    } else if c == '3' {
        Some(3)
    } else if c == '4' {
        Some(4)
    } else if c == '5' {
        Some(5)
    } else if c == '6' {
        Some(6)
    } else if c == '7' {
        Some(7)
    } else if c == '8' {
        Some(8)
    } else if c == '9' {
        Some(9)
    } else {
        None
    }
}

/// Reads the generation out of a segment's file name; `None` for the name
/// of any other file.
pub fn parse_log_name(name: &str) -> (gen: Option<u64>)
    ensures
        gen == name_gen(name@),
{
    let len = name.unicode_len();
    if len <= 4 {
        return None;
    }
    let stem_len = len - 4;
    proof {
        reveal_strlit(".log");
    }
    if name.get_char(stem_len) != '.' || name.get_char(stem_len + 1) != 'l' || name.get_char(
        stem_len + 2,
    ) != 'o' || name.get_char(stem_len + 3) != 'g' {
        assert(name@.subrange(len - 4, len as int)[0] == name@[stem_len as int]);
        assert(name@.subrange(len - 4, len as int)[1] == name@[stem_len + 1]);
        assert(name@.subrange(len - 4, len as int)[2] == name@[stem_len + 2]);
        assert(name@.subrange(len - 4, len as int)[3] == name@[stem_len + 3]);
        return None;
    }
    assert(name@.subrange(len - 4, len as int) =~= log_suffix());
    let ghost stem = name@.subrange(0, stem_len as int);
    let mut value: u64 = 0;
    let mut i: usize = 0;
    assert(stem.subrange(0, 0) =~= Seq::<char>::empty());
    while i < stem_len
        invariant
            i <= stem_len,
            stem_len + 4 == name@.len(),
            stem == name@.subrange(0, stem_len as int),
            all_digits(stem.subrange(0, i as int)),
            value == decimal_value(stem.subrange(0, i as int)),
        decreases stem_len - i,
    {
        let ghost longer = stem.subrange(0, i + 1);
        assert(longer.drop_last() =~= stem.subrange(0, i as int));
        assert(longer.last() == name@[i as int]);
        let digit = match digit_of(name.get_char(i)) {
            Some(digit) => digit,
            None => {
                assert(stem[i as int] == name@[i as int]);
                return None;
            },
        };
        proof {
            lemma_value_grows(stem, i + 1);
        }
        let tenfold = match value.checked_mul(10) {
            Some(tenfold) => tenfold,
            None => {
                return None;
            },
        };
        value = match tenfold.checked_add(digit) {
            Some(value) => value,
            None => {
                return None;
            },
        };
        i = i + 1;
        assert forall|j: int| 0 <= j < longer.len() implies digit_value(#[trigger] longer[j])
            is Some by {
            if j < longer.len() - 1 {
                assert(longer[j] == stem.subrange(0, i - 1)[j]);
            }
        }
    }
    assert(stem.subrange(0, stem_len as int) =~= stem);
    Some(value)
}

/// The numbers grow strictly from one to the next.
pub open spec fn strictly_ascending(gens: Seq<u64>) -> bool {
    forall|i: int, j: int| 0 <= i < j < gens.len() ==> gens[i] < gens[j]
}

/// Some name among the first `k` stands for the generation.
pub open spec fn named_within(names: Seq<String>, k: int, gen: u64) -> bool {
    exists|i: int| 0 <= i < k && name_gen(#[trigger] names[i]@) == Some(gen)
}

/// Puts a generation into an ascending list, unless it is there already.
fn insert_gen(gens: &mut Vec<u64>, gen: u64)
    requires
        strictly_ascending(old(gens)@),
    ensures
        strictly_ascending(final(gens)@),
        forall|g: u64| final(gens)@.contains(g) <==> old(gens)@.contains(g) || g == gen,
{
    let mut at: usize = 0;
    while at < gens.len() && gens[at] < gen
        invariant
            at <= gens.len(),
            gens@ == old(gens)@,
            strictly_ascending(gens@),
            forall|j: int| 0 <= j < at ==> gens@[j] < gen,
        decreases gens.len() - at,
    {
        at = at + 1;
    }
    if at < gens.len() && gens[at] == gen {
        assert(gens@.contains(gen));
        return ;
    }
    let ghost before = gens@;
    gens.insert(at, gen);
    assert(gens@[at as int] == gen);
    assert forall|g: u64| gens@.contains(g) <==> before.contains(g) || g == gen by {
        if gens@.contains(g) {
            let j = choose|j: int| 0 <= j < gens@.len() && gens@[j] == g;
            if j < at {
                assert(before[j] == g);
            } else if j > at {
                assert(before[j - 1] == g);
            }
        }
        if before.contains(g) {
            let j = choose|j: int| 0 <= j < before.len() && before[j] == g;
            if j < at {
                assert(gens@[j] == g);
            } else {
                assert(gens@[j + 1] == g);
            }
        }
    }
}

/// The generations of the segments among the files of a directory, in
/// ascending order, each once.
pub fn sorted_gen_list(names: &Vec<String>) -> (gens: Vec<u64>)
    ensures
        strictly_ascending(gens@),
        forall|g: u64| gens@.contains(g) <==> named_within(names@, names@.len() as int, g),
{
    let mut gens: Vec<u64> = Vec::new();
    let mut i: usize = 0;
    while i < names.len()
        invariant
            i <= names.len(),
            strictly_ascending(gens@),
            forall|g: u64| gens@.contains(g) <==> named_within(names@, i as int, g),
        decreases names.len() - i,
    {
        let ghost before = gens@;
        match parse_log_name(names[i].as_str()) {
            Some(gen) => {
                insert_gen(&mut gens, gen);
                assert forall|g: u64| gens@.contains(g) <==> named_within(
                    names@,
                    i + 1,
                    g,
                ) by {
                    if named_within(names@, i + 1, g) {
                        let j = choose|j: int|
                            0 <= j < i + 1 && name_gen(#[trigger] names@[j]@) == Some(g);
                        if j < i {
                            assert(named_within(names@, i as int, g));
                        }
                    }
                    if before.contains(g) {
                        let j = choose|j: int|
                            0 <= j < i && name_gen(#[trigger] names@[j]@) == Some(g);
                        assert(name_gen(names@[j]@) == Some(g));
                    }
                    if g == gen {
                        assert(name_gen(names@[i as int]@) == Some(g));
                    }
                }
            },
            None => {
                assert forall|g: u64| gens@.contains(g) <==> named_within(
                    names@,
                    i + 1,
                    g,
                ) by {
                    if named_within(names@, i + 1, g) {
                        let j = choose|j: int|
                            0 <= j < i + 1 && name_gen(#[trigger] names@[j]@) == Some(g);
                        if j < i {
                            assert(named_within(names@, i as int, g));
                        }
                    }
                    if before.contains(g) {
                        let j = choose|j: int|
                            0 <= j < i && name_gen(#[trigger] names@[j]@) == Some(g);
                        assert(name_gen(names@[j]@) == Some(g));
                    }
                }
            },
        }
        i = i + 1;
    }
    gens
}

} // verus!
