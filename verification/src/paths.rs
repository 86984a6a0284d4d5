//! Names of files: where the cycle files of a tile lie, which tile a
//! cycle file belongs to, and what the file of a sink is called.

use vstd::prelude::*;
use crate::text::{decimal, push_char, push_decimal};

verus! {

/// Whether `c` is a decimal digit.
pub open spec fn is_digit(c: char) -> bool {
    48 <= c as u32 <= 57
}

/// Whether every character of `s` is a decimal digit.
pub open spec fn all_digits(s: Seq<char>) -> bool {
    forall|i: int| 0 <= i < s.len() ==> is_digit(#[trigger] s[i])
}

/// The number that the digits of `s` spell.
pub open spec fn decimal_value(s: Seq<char>) -> int
    decreases s.len(),
{
    if s.len() == 0 {
        0
    } else {
        decimal_value(s.drop_last()) * 10 + (s.last() as u32 - 48)
    }
}

/// The number that `s` spells as a `u32`: an optional plus sign, then one
/// or more decimal digits whose value fits.
pub open spec fn parse_number(s: Seq<char>) -> Option<u32> {
    let digits = if s.len() > 0 && s[0] == '+' {
        s.skip(1)
    } else {
        s
    };
    if digits.len() > 0 && all_digits(digits) && decimal_value(digits) <= u32::MAX {
        Some(decimal_value(digits) as u32)
    } else {
        None
    }
}

/// The position of the first `sep` in `s` at or after `from`, or the
/// length of `s` where there is none.
pub open spec fn find(s: Seq<char>, sep: char, from: int) -> int
    decreases s.len() - from,
{
    if from < 0 || from >= s.len() {
        s.len() as int
    } else if s[from] == sep {
        from
    } else {
        find(s, sep, from + 1)
    }
}

/// The position behind the last `sep` among the first `n` characters of
/// `s`, or zero where there is none.
pub open spec fn component_start(s: Seq<char>, sep: char, n: int) -> int
    decreases n,
{
    if n <= 0 || n > s.len() {
        0
    } else if s[n - 1] == sep {
        n
    } else {
        component_start(s, sep, n - 1)
    }
}

/// The smaller of two positions.
pub open spec fn earlier(a: int, b: int) -> int {
    if a < b {
        a
    } else {
        b
    }
}

/// The text that names the tile in the path of a cycle file: of the last
/// component of the path, cut at its first dot, the third of the fields
/// that underscores separate; nothing where there are fewer than three.
pub open spec fn tile_field(path: Seq<char>) -> Option<Seq<char>> {
    let start = component_start(path, '/', path.len() as int);
    let end = find(path, '.', start);
    let first = find(path, '_', start);
    let second = find(path, '_', first + 1);
    let third = find(path, '_', second + 1);
    if first < end && second < end {
        Some(path.subrange(second + 1, earlier(third, end)))
    } else {
        None
    }
}

/// The tile number in the path of a cycle file.
pub open spec fn tile_number(path: Seq<char>) -> Option<u32> {
    match tile_field(path) {
        Some(field) => parse_number(field),
        None => None,
    }
}

/// The decimal text of `n`, with zeros in front up to three digits.
pub open spec fn padded3(n: nat) -> Seq<char> {
    if n < 10 {
        seq!['0', '0'] + decimal(n)
    } else if n < 100 {
        seq!['0'] + decimal(n)
    } else {
        decimal(n)
    }
}

/// The directory of the cycle files of `lane` and `cycle` below the run
/// directory `run`.
pub open spec fn cycle_dir_text(run: Seq<char>, lane: nat, cycle: nat) -> Seq<char> {
    run + "/Data/Intensities/BaseCalls/L"@ + padded3(lane) + "/C"@ + decimal(cycle) + ".1"@
}

/// The path of the cycle file of `lane`, `tile` and `cycle` below the run
/// directory `run`.
pub open spec fn cycle_file_text(run: Seq<char>, lane: nat, tile: nat, cycle: nat) -> Seq<char> {
    cycle_dir_text(run, lane, cycle) + "/s_"@ + decimal(lane) + seq!['_'] + decimal(tile)
        + ".bcl"@
}

/// The name of the file of the sink of the sample called `name` and the
/// read at `read`.
pub open spec fn sink_file_text(name: Seq<char>, read: nat) -> Seq<char> {
    "out/"@ + name + "_L001_R"@ + decimal(read) + "_001.fastq.gz"@
}

/// Finds the first `sep` in `s` at or after `from`.
pub fn find_char(s: &str, sep: char, from: usize) -> (pos: usize)
    ensures
        pos as int == find(s@, sep, from as int),
        pos <= s@.len(),
        from <= s@.len() ==> from <= pos,
{
    let len = s.unicode_len();
    if from >= len {
        return len;
    }
    let mut i: usize = from;
    while i < len
        invariant
            from <= i <= len,
            len == s@.len(),
            find(s@, sep, from as int) == find(s@, sep, i as int),
        decreases len - i,
    {
        if s.get_char(i) == sep {
            return i;
        }
        i = i + 1;
    }
    len
}

/// Finds the start of the last component of `s` that `sep` separates.
pub fn last_component_start(s: &str, sep: char) -> (start: usize)
    ensures
        start as int == component_start(s@, sep, s@.len() as int),
        start <= s@.len(),
{
    let len = s.unicode_len();
    let mut i: usize = len;
    while i > 0
        invariant
            i <= len,
            len == s@.len(),
            component_start(s@, sep, len as int) == component_start(s@, sep, i as int),
        decreases i,
    {
        if s.get_char(i - 1) == sep {
            return i;
        }
        i = i - 1;
    }
    0
}

/// Reads the characters of `s` from `from` up to `to` as a `u32`.
pub fn parse_u32_between(s: &str, from: usize, to: usize) -> (number: Option<u32>)
    requires
        from <= to <= s@.len(),
    ensures
        number == parse_number(s@.subrange(from as int, to as int)),
{
    let ghost field = s@.subrange(from as int, to as int);
    let mut start = from;
    if from < to && s.get_char(from) == '+' {
        start = from + 1;
    }
    let ghost digits = s@.subrange(start as int, to as int);
    proof {
        if start == from {
            assert(digits =~= field);
            if field.len() > 0 {
                assert(field[0] == s@[from as int]);
            }
        } else {
            assert(field[0] == s@[from as int]);
            assert(digits =~= field.skip(1));
        }
    }
    assert(digits == if field.len() > 0 && field[0] == '+' {
        field.skip(1)
    } else {
        field
    });
    if start >= to {
        return None;
    }
    let mut value: u64 = 0;
    let mut overflow = false;
    let mut i: usize = start;
    while i < to
        invariant
            start <= i <= to,
            to <= s@.len(),
            from <= to,
            digits == s@.subrange(start as int, to as int),
            field == s@.subrange(from as int, to as int),
            digits == if field.len() > 0 && field[0] == '+' {
                field.skip(1)
            } else {
                field
            },
            all_digits(digits.take(i - start)),
            0 <= decimal_value(digits.take(i - start)),
            overflow <==> decimal_value(digits.take(i - start)) > u32::MAX,
            !overflow ==> value as int == decimal_value(digits.take(i - start)),
        decreases to - i,
    {
        let c = s.get_char(i);
        let code: u32 = c as u32;
        proof {
            assert(digits[i - start] == c);
            assert(digits.take(i - start + 1).drop_last() =~= digits.take(i - start));
        }
        if code < 48 || code > 57 {
            proof {
                assert(!is_digit(digits[i - start]));
            }
            return None;
        }
        if !overflow {
            value = value * 10 + (code - 48) as u64;
            if value > u32::MAX as u64 {
                overflow = true;
            }
        }
        proof {
            let next = digits.take(i - start + 1);
            assert forall|k: int| 0 <= k < next.len() implies is_digit(#[trigger] next[k]) by {
                if k < i - start {
                    assert(next[k] == digits.take(i - start)[k]);
                }
            }
        }
        i = i + 1;
    }
    proof {
        assert(digits.take(i - start) =~= digits);
    }
    if overflow {
        None
    } else {
        Some(value as u32)
    }
}

/// Reads the tile number out of the path of a cycle file, such as
/// `s_1_1101.bcl` in any directory.
pub fn tile_number_of(path: &str) -> (tile: Option<u32>)
    ensures
        tile == tile_number(path@),
{
    let start = last_component_start(path, '/');
    let end = find_char(path, '.', start);
    let first = find_char(path, '_', start);
    if first >= end {
        return None;
    }
    let second = find_char(path, '_', first + 1);
    if second >= end {
        return None;
    }
    let third = find_char(path, '_', second + 1);
    let stop = if third < end {
        third
    } else {
        end
    };
    parse_u32_between(path, second + 1, stop)
}

/// Appends the decimal text of `n` with zeros in front up to three digits.
pub fn push_padded3(text: &mut String, n: usize)
    ensures
        final(text)@ == old(text)@ + padded3(n as nat),
{
    if n < 10 {
        push_char(text, '0');
        push_char(text, '0');
    } else if n < 100 {
        push_char(text, '0');
    }
    push_decimal(text, n);
    assert(text@ =~= old(text)@ + padded3(n as nat));
}

/// The directory of the cycle files of a lane and cycle.
pub fn cycle_dir(run: &str, lane: u32, cycle: u32) -> (dir: String)
    ensures
        dir@ == cycle_dir_text(run@, lane as nat, cycle as nat),
{
    let mut dir = run.to_owned();
    dir.append("/Data/Intensities/BaseCalls/L");
    push_padded3(&mut dir, lane as usize);
    dir.append("/C");
    push_decimal(&mut dir, cycle as usize);
    dir.append(".1");
    dir
}

/// The path of the cycle file of a lane, tile and cycle.
pub fn cycle_file_path(run: &str, lane: u32, tile: u32, cycle: u32) -> (path: String)
    ensures
        path@ == cycle_file_text(run@, lane as nat, tile as nat, cycle as nat),
{
    let mut path = cycle_dir(run, lane, cycle);
    path.append("/s_");
    push_decimal(&mut path, lane as usize);
    push_char(&mut path, '_');
    push_decimal(&mut path, tile as usize);
    path.append(".bcl");
    path
}

/// The name of the file of the sink of a sample and read.
pub fn sink_file_name(name: &str, read: usize) -> (file: String)
    ensures
        file@ == sink_file_text(name@, read as nat),
{
    let mut file = "out/".to_owned();
    file.append(name);
    file.append("_L001_R");
    push_decimal(&mut file, read);
    file.append("_001.fastq.gz");
    file
}

} // verus!
