//! The names of the log files: `<generation>.log`, the generation written
//! as a decimal number.

use vstd::prelude::*;
use vstd::string::StringExecFns;
use vstd::utf8::encode_utf8;

verus! {

/// `.log`
pub const LOG_SUFFIX: [u8; 4] = [0x2e, 0x6c, 0x6f, 0x67];

/// The character of the decimal digit `d`.
pub open spec fn digit_char(d: int) -> char {
    if d == 0 {
        '0'
    } else if d == 1 {
        '1'
    } else if d == 2 {
        '2'
    } else if d == 3 {
        '3'
    } else if d == 4 {
        '4'
    } else if d == 5 {
        '5'
    } else if d == 6 {
        '6'
    } else if d == 7 {
        '7'
    } else if d == 8 {
        '8'
    } else {
        '9'
    }
}

/// `n` written as a decimal number, without leading zeros.
pub open spec fn decimal(n: nat) -> Seq<char>
    decreases n,
{
    if n < 10 {
        seq![digit_char(n as int)]
    } else {
        decimal(n / 10).push(digit_char((n % 10) as int))
    }
}

/// The name of the log of generation `gen`.
pub open spec fn log_name(gen: u64) -> Seq<char> {
    decimal(gen as nat) + seq!['.', 'l', 'o', 'g']
}

/// `b` is the byte of a decimal digit.
pub open spec fn is_digit(b: u8) -> bool {
    0x30 <= b <= 0x39
}

/// The number that a run of decimal digits writes.
pub open spec fn digits_value(digits: Seq<u8>) -> nat
    decreases digits.len(),
{
    if digits.len() == 0 {
        0
    } else {
        digits_value(digits.drop_last()) * 10 + (digits.last() - 0x30) as nat
    }
}

/// `text` without the `+` that it may begin with.
pub open spec fn unsigned(text: Seq<u8>) -> Seq<u8> {
    if text.len() > 0 && text[0] == 0x2b {
        text.drop_first()
    } else {
        text
    }
}

/// Every byte of `digits` is a decimal digit.
pub open spec fn all_digits(digits: Seq<u8>) -> bool {
    forall|i: int| 0 <= i < digits.len() ==> is_digit(#[trigger] digits[i])
}

/// The number that `text` writes: one or more decimal digits, after a `+`
/// or after nothing, that stay within a `u64`.
pub open spec fn number_in(text: Seq<u8>) -> Option<u64> {
    let digits = unsigned(text);
    if digits.len() > 0 && all_digits(digits) && digits_value(digits) <= u64::MAX {
        Some(digits_value(digits) as u64)
    } else {
        None
    }
}

/// The generation that a file of this name is the log of: the name is a
/// number and `.log` after it.
pub open spec fn gen_in(name: Seq<u8>) -> Option<u64> {
    if name.len() >= 4 && name.subrange(name.len() - 4, name.len() as int) == LOG_SUFFIX@ {
        number_in(name.subrange(0, name.len() - 4))
    } else {
        None
    }
}

/// The generation that the file name `name` stands for.
#[verifier::opaque]
pub open spec fn parsed(name: Seq<char>) -> Option<u64> {
    gen_in(encode_utf8(name))
}

/// A longer run of digits writes no smaller a number.
pub proof fn lemma_digits_value_grows(digits: Seq<u8>, k: int)
    requires
        0 <= k <= digits.len(),
    ensures
        digits_value(digits.take(k)) <= digits_value(digits),
    decreases digits.len() - k,
{
    if k < digits.len() {
        lemma_digits_value_grows(digits, k + 1);
        assert(digits.take(k + 1).drop_last() =~= digits.take(k));
    } else {
        assert(digits.take(k) =~= digits);
    }
}

/// The bytes that write `n` as a decimal number.
pub open spec fn decimal_bytes(n: nat) -> Seq<u8> {
    Seq::new(decimal(n).len(), |i: int| decimal(n)[i] as u8)
}

/// A decimal number is written with digits, not one of them to spare, and
/// these write the number.
pub proof fn lemma_decimal_reads_back(n: nat)
    ensures
        decimal(n).len() > 0,
        vstd::utf8::is_ascii_chars(decimal(n)),
        all_digits(decimal_bytes(n)),
        digits_value(decimal_bytes(n)) == n,
    decreases n,
{
    let bytes = decimal_bytes(n);
    if n < 10 {
        assert(bytes.drop_last() =~= Seq::<u8>::empty());
        assert(digits_value(bytes.drop_last()) == 0);
        assert(bytes.last() == decimal(n)[0] as u8);
    } else {
        lemma_decimal_reads_back(n / 10);
        assert(bytes.drop_last() =~= decimal_bytes(n / 10));
        assert(bytes.last() == digit_char((n % 10) as int) as u8);
        assert forall|i: int| 0 <= i < bytes.len() implies is_digit(#[trigger] bytes[i]) by {
            if i < bytes.len() - 1 {
                assert(is_digit(decimal_bytes(n / 10)[i]));
            }
        }
    }
}

/// The name that `log_path` gives the log of a generation is read by
/// `parse_log_name` as the name of the log of that generation.
#[verifier::rlimit(40)]
pub proof fn law_log_name_reads_back(gen: u64)
    ensures
        parsed(log_name(gen)) == Some(gen),
{
    reveal(parsed);
    let n = gen as nat;
    let name = log_name(gen);
    let tail = seq!['.', 'l', 'o', 'g'];
    lemma_decimal_reads_back(n);
    assert(vstd::utf8::is_ascii_chars(name)) by {
        assert forall|i: int| 0 <= i < name.len() implies '\0' <= #[trigger] name[i]
            <= '\u{7f}' by {
            if i < decimal(n).len() {
                assert(name[i] == decimal(n)[i]);
            } else {
                assert(name[i] == tail[i - decimal(n).len()]);
            }
        }
    }
    vstd::utf8::is_ascii_chars_encode_utf8(name);
    let bytes = encode_utf8(name);
    let k = decimal(n).len() as int;
    assert(bytes.len() == k + 4);
    assert(bytes.subrange(k, k + 4) =~= LOG_SUFFIX@) by {
        assert(name[k] == '.' && name[k + 1] == 'l' && name[k + 2] == 'o' && name[k + 3] == 'g');
        assert(bytes[k] == name[k] as u8);
        assert(bytes[k + 1] == name[k + 1] as u8);
        assert(bytes[k + 2] == name[k + 2] as u8);
        assert(bytes[k + 3] == name[k + 3] as u8);
    }
    assert(bytes.subrange(0, k) =~= decimal_bytes(n)) by {
        assert forall|i: int| 0 <= i < k implies bytes.subrange(0, k)[i] == decimal_bytes(n)[i] by {
            assert(bytes[i] == name[i] as u8);
            assert(name[i] == decimal(n)[i]);
        }
    }
    let digits = decimal_bytes(n);
    assert(is_digit(digits[0]));
    assert(unsigned(digits) == digits);
}

/// The text of one decimal digit.
fn digit_text(d: u8) -> (text: &'static str)
    requires
        d < 10,
    ensures
        text@ == seq![digit_char(d as int)],
{
    proof {
        reveal_strlit("0");
        reveal_strlit("1");
        reveal_strlit("2");
        reveal_strlit("3");
        reveal_strlit("4");
        reveal_strlit("5");
        reveal_strlit("6");
        reveal_strlit("7");
        reveal_strlit("8");
        reveal_strlit("9");
    }
    let text = if d == 0 {
        "0"
    } else if d == 1 {
        "1"
    } else if d == 2 {
        "2"
    } else if d == 3 {
        "3"
    } else if d == 4 {
        "4"
    } else if d == 5 {
        "5"
    } else if d == 6 {
        "6"
    } else if d == 7 {
        "7"
    } else if d == 8 {
        "8"
    } else {
        "9"
    };
    assert(text@ =~= seq![digit_char(d as int)]);
    text
}

/// The digits of a number, last digit first, as the characters they are
/// written with, first digit first.
pub open spec fn written(rev: Seq<u8>) -> Seq<char> {
    Seq::new(rev.len(), |i: int| digit_char(rev[rev.len() - 1 - i] as int))
}

/// The name of the log of generation `gen`, relative to the database
/// directory.
#[verifier::rlimit(40)]
pub fn log_path(gen: u64) -> (name: String)
    ensures
        name@ == log_name(gen),
{
    let mut rev: Vec<u8> = Vec::new();
    let mut n = gen;
    proof {
        assert(decimal(gen as nat) =~= decimal(n as nat) + written(rev@));
    }
    while n >= 10
        invariant
            decimal(gen as nat) == decimal(n as nat) + written(rev@),
            forall|i: int| 0 <= i < rev@.len() ==> rev@[i] < 10,
        decreases n,
    {
        let ghost had = rev@;
        rev.push((n % 10) as u8);
        proof {
            assert(written(rev@) =~= seq![digit_char((n % 10) as int)] + written(had));
            assert(decimal(n as nat) == decimal((n / 10) as nat).push(digit_char((n % 10) as int)));
            assert(decimal((n / 10) as nat).push(digit_char((n % 10) as int)) + written(had)
                =~= decimal((n / 10) as nat) + written(rev@));
        }
        n = n / 10;
    }
    let ghost had = rev@;
    rev.push(n as u8);
    proof {
        assert(written(rev@) =~= seq![digit_char(n as int)] + written(had));
        assert(decimal(gen as nat) =~= written(rev@));
    }
    let mut name = String::new();
    let mut i = rev.len();
    while i > 0
        invariant
            i <= rev@.len(),
            forall|j: int| 0 <= j < rev@.len() ==> rev@[j] < 10,
            name@ == written(rev@).take(rev@.len() - i),
        decreases i,
    {
        i -= 1;
        let ghost before = name@;
        name.append(digit_text(rev[i]));
        proof {
            assert(name@ =~= written(rev@).take(rev@.len() - i));
        }
    }
    proof {
        reveal_strlit(".log");
        assert(written(rev@).take(rev@.len() as int) =~= written(rev@));
    }
    name.append(".log");
    proof {
        assert(name@ =~= log_name(gen));
    }
    name
}

/// Reads the number that `text` writes.
pub fn parse_number(text: &[u8]) -> (r: Option<u64>)
    ensures
        r == number_in(text@),
{
    let start: usize = if text.len() > 0 && text[0] == 0x2b {
        1
    } else {
        0
    };
    let ghost digits = text@.subrange(start as int, text@.len() as int);
    proof {
        if start == 1 {
            assert(digits =~= text@.drop_first());
        } else {
            assert(digits =~= text@);
        }
    }
    if start == text.len() {
        return None;
    }
    let mut value: u64 = 0;
    let mut i: usize = start;
    proof {
        assert(digits.take(0) =~= Seq::<u8>::empty());
    }
    while i < text.len()
        invariant
            start <= i <= text.len(),
            digits == text@.subrange(start as int, text@.len() as int),
            digits == unsigned(text@),
            forall|j: int| 0 <= j < i - start ==> is_digit(#[trigger] digits[j]),
            value == digits_value(digits.take(i - start)),
        decreases text.len() - i,
    {
        let b = text[i];
        assert(digits[i - start] == b);
        if b < 0x30 || b > 0x39 {
            proof {
                let at = i - start;
                assert(0 <= at < digits.len() && !is_digit(digits[at]));
                assert(!all_digits(digits));
            }
            return None;
        }
        let d = (b - 0x30) as u64;
        proof {
            assert(digits.take(i - start + 1).drop_last() =~= digits.take(i - start));
            assert(digits.take(i - start + 1).last() == b);
            lemma_digits_value_grows(digits, i - start + 1);
            assert(digits_value(digits.take(i - start + 1)) == value * 10 + d);
        }
        if value > (u64::MAX - d) / 10 {
            return None;
        }
        value = value * 10 + d;
        i += 1;
    }
    proof {
        assert(digits.take(digits.len() as int) =~= digits);
    }
    Some(value)
}

/// Reads the generation that the file name `name` stands for, if it is the
/// name of a log.
pub fn parse_log_name(name: &str) -> (r: Option<u64>)
    ensures
        r == parsed(name@),
{
    proof {
        reveal(parsed);
    }
    let bytes = name.as_bytes();
    let n = bytes.len();
    if n < 4 {
        return None;
    }
    if bytes[n - 4] != 0x2e || bytes[n - 3] != 0x6c || bytes[n - 2] != 0x6f || bytes[n - 1]
        != 0x67 {
        proof {
            let tail = bytes@.subrange(n - 4, n as int);
            assert(tail[0] == bytes@[n - 4]);
            assert(tail[1] == bytes@[n - 3]);
            assert(tail[2] == bytes@[n - 2]);
            assert(tail[3] == bytes@[n - 1]);
        }
        return None;
    }
    proof {
        assert(bytes@.subrange(n - 4, n as int) =~= LOG_SUFFIX@);
    }
    parse_number(vstd::slice::slice_subrange(bytes, 0, n - 4))
}

/// The generations ascend strictly.
pub open spec fn ascends(gens: Seq<u64>) -> bool {
    forall|i: int, j: int| 0 <= i < j < gens.len() ==> gens[i] < gens[j]
}

/// One of the first `n` names is the name of the log of generation `gen`.
pub open spec fn named_among(names: Seq<String>, n: int, gen: u64) -> bool {
    exists|i: int| 0 <= i < n && i < names.len() && parsed(#[trigger] names[i]@) == Some(gen)
}

/// Puts `gen` into the ascending list `gens`, unless it is there.
#[verifier::rlimit(40)]
pub fn insert_gen(gens: &mut Vec<u64>, gen: u64)
    requires
        ascends(old(gens)@),
    ensures
        ascends(final(gens)@),
        forall|g: u64| #[trigger] final(gens)@.contains(g) <==> (old(gens)@.contains(g) || g == gen),
{
    let ghost had = gens@;
    let mut at: usize = 0;
    while at < gens.len() && gens[at] < gen
        invariant
            at <= gens.len(),
            gens@ == had,
            ascends(gens@),
            forall|j: int| 0 <= j < at ==> gens@[j] < gen,
        decreases gens.len() - at,
    {
        at += 1;
    }
    if at == gens.len() || gens[at] != gen {
        proof {
            assert forall|j: int| at <= j < gens@.len() implies gen < gens@[j] by {
                if at < j {
                    assert(gens@[at as int] < gens@[j]);
                }
            }
        }
        gens.insert(at, gen);
        proof {
            assert forall|x: int, y: int| 0 <= x < y < gens@.len() implies gens@[x] < gens@[y] by {
                let ox = if x < at { x } else { x - 1 };
                let oy = if y < at { y } else { y - 1 };
                if x != at && y != at {
                    assert(had[ox] < had[oy]);
                }
            }
            assert forall|g: u64| #[trigger] gens@.contains(g) <==> (had.contains(g) || g == gen) by {
                if gens@.contains(g) {
                    let x = choose|x: int| 0 <= x < gens@.len() && gens@[x] == g;
                    if x < at {
                        assert(had[x] == g);
                    } else if x > at {
                        assert(had[x - 1] == g);
                    }
                }
                if had.contains(g) {
                    let x = choose|x: int| 0 <= x < had.len() && had[x] == g;
                    if x < at {
                        assert(gens@[x] == g);
                    } else {
                        assert(gens@[x + 1] == g);
                    }
                }
                if g == gen {
                    assert(gens@[at as int] == g);
                }
            }
        }
    } else {
        proof {
            assert(had[at as int] == gen);
            assert(had.contains(gen));
        }
    }
}

/// Taking one more name into account: the generations named among the
/// first `k + 1` names are those named among the first `k` and the one
/// that name `k` stands for.
#[verifier::rlimit(40)]
pub proof fn lemma_one_more_name(names: Seq<String>, k: int, gen: u64)
    requires
        0 <= k < names.len(),
    ensures
        named_among(names, k + 1, gen) <==> (named_among(names, k, gen) || parsed(names[k]@)
            == Some(gen)),
{
    if named_among(names, k + 1, gen) {
        let i = choose|i: int|
            0 <= i < k + 1 && i < names.len() && parsed(#[trigger] names[i]@) == Some(gen);
        if i < k {
            assert(0 <= i < k && i < names.len() && parsed(names[i]@) == Some(gen));
        }
    }
    if named_among(names, k, gen) {
        let i = choose|i: int|
            0 <= i < k && i < names.len() && parsed(#[trigger] names[i]@) == Some(gen);
        assert(0 <= i < k + 1 && i < names.len() && parsed(names[i]@) == Some(gen));
    }
    if parsed(names[k]@) == Some(gen) {
        assert(0 <= k < k + 1 && k < names.len() && parsed(names[k]@) == Some(gen));
    }
}

/// The generations of the logs among the files named `names`, each once,
/// in ascending order.
#[verifier::rlimit(40)]
pub fn sorted_log_list(names: &Vec<String>) -> (gens: Vec<u64>)
    ensures
        ascends(gens@),
        forall|gen: u64| #[trigger]
            gens@.contains(gen) <==> named_among(names@, names@.len() as int, gen),
{
    let mut gens: Vec<u64> = Vec::new();
    let mut k: usize = 0;
    while k < names.len()
        invariant
            k <= names.len(),
            ascends(gens@),
            forall|gen: u64| #[trigger] gens@.contains(gen) <==> named_among(names@, k as int, gen),
        decreases names.len() - k,
    {
        let ghost had = gens@;
        let found = parse_log_name(names[k].as_str());
        if let Some(gen) = found {
            insert_gen(&mut gens, gen);
        }
        proof {
            assert forall|g: u64| #[trigger] gens@.contains(g) <==> named_among(names@, k + 1, g) by {
                lemma_one_more_name(names@, k as int, g);
                assert(gens@.contains(g) <==> (had.contains(g) || found == Some(g)));
                assert(had.contains(g) <==> named_among(names@, k as int, g));
            }
        }
        k += 1;
    }
    gens
}

} // verus!
