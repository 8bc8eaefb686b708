//! The names of recovered files: the output directory, `image_`, the file's
//! number in decimal digits, filled with zeros to six places, and the
//! extension of its format.

use vstd::prelude::*;
use vstd::string::StringExecFns;
use crate::scanner::FileType;

verus! {

/// The least number of digits in a file's number.
pub const SEQUENCE_WIDTH: usize = 6;

/// The extension that files of a format get, as characters.
pub open spec fn extension_of(file_type: FileType) -> Seq<char> {
    match file_type {
        FileType::Jpeg => seq!['j', 'p', 'g'],
        FileType::Rw2 => seq!['r', 'w', '2'],
    }
}

/// The decimal digit for a number below ten.
pub open spec fn digit(d: nat) -> char {
    if d == 0 {
        '0'
    } else if d == 1 {
        '1'
    } else if d == 2 {
        '2'
    } else if d == 3 {
        '3'
    } else if d == 4 {
        '4'
    } else if d == 5 {
        '5'
    } else if d == 6 {
        '6'
    } else if d == 7 {
        '7'
    } else if d == 8 {
        '8'
    } else {
        '9'
    }
}

/// The number that a decimal digit stands for.
pub open spec fn digit_value(c: char) -> nat {
    if c == '1' {
        1
    } else if c == '2' {
        2
    } else if c == '3' {
        3
    } else if c == '4' {
        4
    } else if c == '5' {
        5
    } else if c == '6' {
        6
    } else if c == '7' {
        7
    } else if c == '8' {
        8
    } else if c == '9' {
        9
    } else {
        0
    }
}

/// The decimal digits of `n`, the most significant first, without leading
/// zeros; the single digit `0` for zero.
pub open spec fn decimal(n: nat) -> Seq<char>
    decreases n,
{
    if n < 10 {
        seq![digit(n)]
    } else {
        decimal(n / 10).push(digit(n % 10))
    }
}

/// The number that a sequence of decimal digits stands for.
pub open spec fn value(digits: Seq<char>) -> nat
    decreases digits.len(),
{
    if digits.len() == 0 {
        0
    } else {
        value(digits.drop_last()) * 10 + digit_value(digits.last())
    }
}

/// `count` zeros.
pub open spec fn zeros(count: nat) -> Seq<char> {
    Seq::new(count, |i: int| '0')
}

/// The decimal digits of `n`, with zeros in front where there are fewer than
/// `width` of them.
pub open spec fn padded(n: nat, width: nat) -> Seq<char> {
    if decimal(n).len() < width {
        zeros((width - decimal(n).len()) as nat) + decimal(n)
    } else {
        decimal(n)
    }
}

/// What stands between the output directory and a file's number.
pub open spec fn stem() -> Seq<char> {
    seq!['/', 'i', 'm', 'a', 'g', 'e', '_']
}

/// The name of the file with number `sequence` and format `file_type` in the
/// directory `output_dir`.
pub open spec fn file_name_of(output_dir: Seq<char>, sequence: nat, file_type: FileType) -> Seq<
    char,
> {
    output_dir + stem() + padded(sequence, SEQUENCE_WIDTH as nat) + seq!['.'] + extension_of(
        file_type,
    )
}

/// The digits of a number stand for that number.
pub proof fn lemma_value_of_decimal(n: nat)
    ensures
        value(decimal(n)) == n,
        decimal(n).len() >= 1,
    decreases n,
{
    if n < 10 {
        assert(decimal(n).drop_last() =~= Seq::<char>::empty());
        assert(value(decimal(n).drop_last()) == 0);
    } else {
        lemma_value_of_decimal(n / 10);
        assert(decimal(n).drop_last() =~= decimal(n / 10));
    }
}

/// Zeros in front of digits do not change the number that the digits stand
/// for.
pub proof fn lemma_value_ignores_zeros(count: nat, digits: Seq<char>)
    ensures
        value(zeros(count) + digits) == value(digits),
    decreases digits.len(),
{
    let all = zeros(count) + digits;
    if digits.len() == 0 {
        assert(all =~= zeros(count));
        lemma_value_of_zeros(count);
    } else {
        assert(all.drop_last() =~= zeros(count) + digits.drop_last());
        lemma_value_ignores_zeros(count, digits.drop_last());
    }
}

/// Zeros alone stand for zero.
pub proof fn lemma_value_of_zeros(count: nat)
    ensures
        value(zeros(count)) == 0,
    decreases count,
{
    if count > 0 {
        assert(zeros(count).drop_last() =~= zeros((count - 1) as nat));
        lemma_value_of_zeros((count - 1) as nat);
    }
}

/// The digits of a file's number, filled to any width, stand for that number,
/// and there are at least `width` of them.
pub proof fn lemma_value_of_padded(n: nat, width: nat)
    ensures
        value(padded(n, width)) == n,
        padded(n, width).len() >= width,
        padded(n, width).len() >= 1,
{
    lemma_value_of_decimal(n);
    if decimal(n).len() < width {
        lemma_value_ignores_zeros((width - decimal(n).len()) as nat, decimal(n));
    }
}

/// Two sequences that are put together from parts of the same lengths agree
/// only where their parts agree.
pub proof fn lemma_parts_agree(a: Seq<char>, b: Seq<char>, c: Seq<char>, d: Seq<char>)
    requires
        a + b == c + d,
        a.len() == c.len(),
    ensures
        a == c,
        b == d,
{
    assert(a =~= (a + b).subrange(0, a.len() as int));
    assert(c =~= (c + d).subrange(0, c.len() as int));
    assert(b =~= (a + b).subrange(a.len() as int, (a + b).len() as int));
    assert(d =~= (c + d).subrange(c.len() as int, (c + d).len() as int));
}

/// File names do not collide: in one directory, two files have the same name
/// only if they have the same number and the same format.
pub proof fn lemma_names_are_distinct(
    output_dir: Seq<char>,
    first: nat,
    first_type: FileType,
    second: nat,
    second_type: FileType,
)
    requires
        file_name_of(output_dir, first, first_type) == file_name_of(
            output_dir,
            second,
            second_type,
        ),
    ensures
        first == second,
        first_type == second_type,
{
    let width = SEQUENCE_WIDTH as nat;
    let head = output_dir + stem();
    let one = padded(first, width);
    let two = padded(second, width);
    let dot = seq!['.'];
    let one_tail = dot + extension_of(first_type);
    let two_tail = dot + extension_of(second_type);
    assert(file_name_of(output_dir, first, first_type) =~= head + (one + one_tail));
    assert(file_name_of(output_dir, second, second_type) =~= head + (two + two_tail));
    lemma_parts_agree(head, one + one_tail, head, two + two_tail);
    assert(one_tail.len() == 4 && two_tail.len() == 4);
    assert((one + one_tail).len() == (two + two_tail).len());
    lemma_parts_agree(one, one_tail, two, two_tail);
    lemma_value_of_padded(first, width);
    lemma_value_of_padded(second, width);
    assert(one_tail[1] == extension_of(first_type)[0]);
    assert(two_tail[1] == extension_of(second_type)[0]);
}

/// The extension that files of a format get: `jpg` or `rw2`.
pub fn extension(file_type: FileType) -> (ext: &'static str)
    ensures
        ext@ == extension_of(file_type),
{
    proof {
        reveal_strlit("jpg");
        reveal_strlit("rw2");
    }
    match file_type {
        FileType::Jpeg => {
            assert("jpg"@ =~= extension_of(FileType::Jpeg));
            "jpg"
        },
        FileType::Rw2 => {
            assert("rw2"@ =~= extension_of(FileType::Rw2));
            "rw2"
        },
    }
}

/// The decimal digit for a number below ten, as a string of one character.
fn digit_str(d: usize) -> (s: &'static str)
    requires
        d < 10,
    ensures
        s@ == seq![digit(d as nat)],
{
    proof {
        reveal_strlit("0");
        reveal_strlit("1");
        reveal_strlit("2");
        reveal_strlit("3");
        reveal_strlit("4");
        reveal_strlit("5");
        reveal_strlit("6");
        reveal_strlit("7");
        reveal_strlit("8");
        reveal_strlit("9");
    }
    let s = if d == 0 {
        "0"
    } else if d == 1 {
        "1"
    } else if d == 2 {
        "2"
    } else if d == 3 {
        "3"
    } else if d == 4 {
        "4"
    } else if d == 5 {
        "5"
    } else if d == 6 {
        "6"
    } else if d == 7 {
        "7"
    } else if d == 8 {
        "8"
    } else {
        "9"
    };
    assert(s@ =~= seq![digit(d as nat)]);
    s
}

/// The number of decimal digits of `n`.
fn digit_count(n: usize) -> (count: usize)
    ensures
        count == decimal(n as nat).len(),
        1 <= count,
{
    let mut count: usize = 1;
    let mut rest: usize = n;
    while rest >= 10
        invariant
            decimal(n as nat).len() == decimal(rest as nat).len() + count - 1,
            1 <= count,
            count + rest <= n + 1,
        decreases rest,
    {
        assert(decimal(rest as nat) == decimal((rest / 10) as nat).push(digit((rest % 10) as nat)));
        rest = rest / 10;
        count += 1;
    }
    count
}

/// Appends the decimal digits of `n` to `out`.
fn push_decimal(out: &mut String, n: usize)
    ensures
        final(out)@ == old(out)@ + decimal(n as nat),
    decreases n,
{
    if n >= 10 {
        push_decimal(out, n / 10);
    }
    out.append(digit_str(n % 10));
    proof {
        if n >= 10 {
            assert(old(out)@ + decimal((n / 10) as nat) + seq![digit((n % 10) as nat)] =~= old(
                out,
            )@ + decimal(n as nat));
        }
    }
}

/// The name under which a recovered file is stored: `output_dir`, `/image_`,
/// the file's number in at least six decimal digits with zeros in front, a
/// dot, and the extension of the file's format.
pub fn file_name(output_dir: &str, sequence: usize, file_type: FileType) -> (name: String)
    ensures
        name@ == file_name_of(output_dir@, sequence as nat, file_type),
{
    proof {
        reveal_strlit("/image_");
        reveal_strlit(".");
        reveal_strlit("0");
    }
    let mut name = String::from_str(output_dir);
    name.append("/image_");
    assert(name@ =~= output_dir@ + stem());
    let count = digit_count(sequence);
    let ghost head = name@;
    let mut filled: usize = count;
    assert(name@ =~= head + zeros(0));
    while filled < SEQUENCE_WIDTH
        invariant
            count <= filled,
            filled <= SEQUENCE_WIDTH || filled == count,
            name@ == head + zeros((filled - count) as nat),
        decreases SEQUENCE_WIDTH - filled,
    {
        proof {
            reveal_strlit("0");
        }
        name.append("0");
        filled += 1;
        assert(name@ =~= head + zeros((filled - count) as nat));
    }
    push_decimal(&mut name, sequence);
    assert(name@ =~= head + padded(sequence as nat, SEQUENCE_WIDTH as nat));
    name.append(".");
    name.append(extension(file_type));
    name
}

} // verus!
