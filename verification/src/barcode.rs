//! Barcodes as numbers: two bits for each base, the first base in the
//! highest place, and the codes that differ from a barcode in one base.

use vstd::prelude::*;

verus! {

/// Number of bases in a barcode.
pub const BARCODE_LEN: usize = 8;

/// Number of codes that a barcode of eight bases can take: `4^8`.
pub const CODE_SPACE: usize = 65536;

/// Longest text whose code fits a `usize` of 32 bits.
pub const MAX_CODED_LEN: usize = 16;

/// Whether `c` is one of the four bases.
pub open spec fn is_base(c: char) -> bool {
    c == 'A' || c == 'C' || c == 'G' || c == 'T'
}

/// The two-bit value of a base: A is 0, C is 1, G is 2, T is 3.
pub open spec fn base_index(c: char) -> int {
    if c == 'A' {
        0
    } else if c == 'C' {
        1
    } else if c == 'G' {
        2
    } else {
        3
    }
}

/// Whether every character of `s` is a base.
pub open spec fn all_bases(s: Seq<char>) -> bool {
    forall|i: int| 0 <= i < s.len() ==> is_base(#[trigger] s[i])
}

/// Whether `s` is a barcode: eight bases.
pub open spec fn valid_barcode(s: Seq<char>) -> bool {
    s.len() == BARCODE_LEN && all_bases(s)
}

/// Four to the power `p`.
pub open spec fn pow4(p: nat) -> int
    decreases p,
{
    if p == 0 {
        1
    } else {
        4 * pow4((p - 1) as nat)
    }
}

/// The code of a text of bases: its bases read as the digits of a number
/// in base four, the first base in the highest place.
pub open spec fn barcode_code(s: Seq<char>) -> int
    decreases s.len(),
{
    if s.len() == 0 {
        0
    } else {
        barcode_code(s.drop_last()) * 4 + base_index(s.last())
    }
}

/// The digit of `code` in place `pos`, counted from the lowest place.
pub open spec fn digit(code: int, pos: nat) -> int {
    (code / pow4(pos)) % 4
}

/// `code` with the digit in place `pos` replaced by `base`.
pub open spec fn substitute(code: int, pos: nat, base: int) -> int {
    code + (base - digit(code, pos)) * pow4(pos)
}

/// Whether `code` is `target` or differs from it in one base only.
pub open spec fn one_substitution(code: int, target: int) -> bool {
    exists|pos: nat, base: int|
        pos < BARCODE_LEN && 0 <= base < 4 && code == #[trigger] substitute(target, pos, base)
}

/// The code of a text is below four to the power of its length.
pub proof fn lemma_barcode_code_bound(s: Seq<char>)
    ensures
        0 <= barcode_code(s) < pow4(s.len()),
    decreases s.len(),
{
    if s.len() > 0 {
        lemma_barcode_code_bound(s.drop_last());
    }
}

/// The powers of four up to the sixteenth.
pub proof fn lemma_pow4_values()
    ensures
        pow4(0) == 1,
        pow4(1) == 4,
        pow4(2) == 16,
        pow4(3) == 64,
        pow4(4) == 256,
        pow4(5) == 1024,
        pow4(6) == 4096,
        pow4(7) == 16384,
        pow4(8) == 65536,
        pow4(16) == 4294967296,
{
    reveal_with_fuel(pow4, 17);
}

/// Powers of four grow with the exponent.
pub proof fn lemma_pow4_monotone(p: nat, q: nat)
    requires
        p <= q,
    ensures
        0 < pow4(p) <= pow4(q),
    decreases q,
{
    if p < q {
        lemma_pow4_monotone(p, (q - 1) as nat);
    } else if p > 0 {
        lemma_pow4_monotone((p - 1) as nat, (q - 1) as nat);
    }
}

/// The code of the first `i + 1` characters from that of the first `i`.
pub proof fn lemma_barcode_code_step(s: Seq<char>, i: int)
    requires
        0 <= i < s.len(),
    ensures
        barcode_code(s.take(i + 1)) == barcode_code(s.take(i)) * 4 + base_index(s[i]),
{
    assert(s.take(i + 1).drop_last() =~= s.take(i));
}

/// A code is one substitution away from itself.
pub proof fn lemma_one_substitution_reflexive(code: int)
    ensures
        one_substitution(code, code),
{
    lemma_pow4_values();
    assert(code == substitute(code, 0, digit(code, 0)));
}

/// Tells whether `c` is one of the four bases.
pub fn is_base_char(c: char) -> (yes: bool)
    ensures
        yes == is_base(c),
{
    c == 'A' || c == 'C' || c == 'G' || c == 'T'
}

/// Tells whether `s` is a barcode: eight bases.
pub fn is_valid_barcode(s: &str) -> (yes: bool)
    ensures
        yes == valid_barcode(s@),
{
    if s.unicode_len() != BARCODE_LEN {
        return false;
    }
    let mut i: usize = 0;
    while i < BARCODE_LEN
        invariant
            i <= BARCODE_LEN,
            s@.len() == BARCODE_LEN,
            all_bases(s@.take(i as int)),
        decreases BARCODE_LEN - i,
    {
        if !is_base_char(s.get_char(i)) {
            return false;
        }
        proof {
            assert forall|k: int| 0 <= k < i + 1 implies is_base(
                #[trigger] s@.take(i + 1)[k],
            ) by {
                if k < i {
                    assert(s@.take(i + 1)[k] == s@.take(i as int)[k]);
                }
            }
        }
        i = i + 1;
    }
    proof {
        assert(s@.take(i as int) =~= s@);
    }
    true
}

/// Whether `code` is `target` with one of the first `k` substitutions
/// applied, the substitutions counted place by place from the lowest and,
/// within a place, base by base.
pub open spec fn hit_within(code: int, target: int, k: nat) -> bool
    decreases k,
{
    k > 0 && (hit_within(code, target, (k - 1) as nat) || code == substitute(
        target,
        ((k - 1) / 4) as nat,
        (k - 1) % 4,
    ))
}

proof fn lemma_hit_within_gives(code: int, target: int, k: nat)
    requires
        k <= 4 * BARCODE_LEN,
        hit_within(code, target, k),
    ensures
        one_substitution(code, target),
    decreases k,
{
    if code == substitute(target, ((k - 1) / 4) as nat, (k - 1) % 4) {
    } else {
        lemma_hit_within_gives(code, target, (k - 1) as nat);
    }
}

proof fn lemma_hit_within_takes(code: int, target: int, pos: nat, base: int, k: nat)
    requires
        0 <= base < 4,
        4 * pos + base < k,
        code == substitute(target, pos, base),
    ensures
        hit_within(code, target, k),
    decreases k,
{
    if 4 * pos + base == k - 1 {
        assert(((k - 1) / 4) as nat == pos);
        assert((k - 1) % 4 == base);
    } else {
        lemma_hit_within_takes(code, target, pos, base, (k - 1) as nat);
    }
}

/// The thirty-two substitutions, counted one by one, are all the codes one
/// substitution away.
pub proof fn lemma_hit_within_all(code: int, target: int)
    ensures
        hit_within(code, target, (4 * BARCODE_LEN) as nat) == one_substitution(code, target),
{
    if hit_within(code, target, (4 * BARCODE_LEN) as nat) {
        lemma_hit_within_gives(code, target, (4 * BARCODE_LEN) as nat);
    }
    if one_substitution(code, target) {
        let (pos, base) = choose|pos: nat, base: int|
            pos < BARCODE_LEN && 0 <= base < 4 && code == #[trigger] substitute(target, pos, base);
        lemma_hit_within_takes(code, target, pos, base, (4 * BARCODE_LEN) as nat);
    }
}

/// `code` with the base in place `pos` replaced by `base`.
pub fn substitute_code(code: u32, pos: u32, base: u32) -> (variant: u32)
    requires
        code < CODE_SPACE,
        pos < BARCODE_LEN,
        base < 4,
    ensures
        variant as int == substitute(code as int, pos as nat, base as int),
        variant < CODE_SPACE,
{
    let shift: u32 = pos * 2;
    let mask: u32 = 3u32 << shift;
    let variant: u32 = (code & !mask) | (base << shift);
    proof {
        let unit: u32 = 1u32 << shift;
        assert(unit as int == pow4(pos as nat)) by {
            lemma_pow4_values();
            assert(1u32 << 0u32 == 1 && 1u32 << 2u32 == 4 && 1u32 << 4u32 == 16 && 1u32 << 6u32
                == 64 && 1u32 << 8u32 == 256 && 1u32 << 10u32 == 1024 && 1u32 << 12u32 == 4096
                && 1u32 << 14u32 == 16384) by (bit_vector);
        }
        let old_digit: u32 = (code >> shift) & 3;
        assert(old_digit == (code / unit) % 4 && old_digit * unit <= code && variant + old_digit
            * unit == code + base * unit && variant < 65536) by (bit_vector)
            requires
                code < 65536,
                shift <= 14,
                base < 4,
                unit == 1u32 << shift,
                old_digit == (code >> shift) & 3,
                variant == (code & !(3u32 << shift)) | (base << shift),
        ;
        assert((base - old_digit) * unit == base * unit - old_digit * unit) by (nonlinear_arith);
    }
    variant
}

/// Writes `id` at every code that is `code` or one substitution away from
/// it, and leaves the rest of the table as it was.
pub fn mark_neighbors(table: &mut Vec<u16>, code: u32, id: u16)
    requires
        old(table)@.len() == CODE_SPACE,
        code < CODE_SPACE,
    ensures
        final(table)@.len() == CODE_SPACE,
        forall|c: int|
            0 <= c < CODE_SPACE ==> #[trigger] final(table)@[c] == if one_substitution(
                c,
                code as int,
            ) {
                id
            } else {
                old(table)@[c]
            },
{
    let ghost before = table@;
    let mut pos: u32 = 0;
    while pos < BARCODE_LEN as u32
        invariant
            pos <= BARCODE_LEN,
            code < CODE_SPACE,
            before.len() == CODE_SPACE,
            table@.len() == CODE_SPACE,
            forall|c: int|
                0 <= c < CODE_SPACE ==> #[trigger] table@[c] == if hit_within(
                    c,
                    code as int,
                    (4 * pos) as nat,
                ) {
                    id
                } else {
                    before[c]
                },
        decreases BARCODE_LEN - pos,
    {
        let mut base: u32 = 0;
        while base < 4
            invariant
                base <= 4,
                pos < BARCODE_LEN,
                code < CODE_SPACE,
                before.len() == CODE_SPACE,
                table@.len() == CODE_SPACE,
                forall|c: int|
                    0 <= c < CODE_SPACE ==> #[trigger] table@[c] == if hit_within(
                        c,
                        code as int,
                        (4 * pos + base) as nat,
                    ) {
                        id
                    } else {
                        before[c]
                    },
            decreases 4 - base,
        {
            let variant = substitute_code(code, pos, base);
            let ghost prior = table@;
            table.set(variant as usize, id);
            proof {
                let k = (4 * pos + base + 1) as nat;
                assert(((k - 1) / 4) as nat == pos as nat);
                assert((k - 1) % 4 == base as int);
                assert forall|c: int| 0 <= c < CODE_SPACE implies #[trigger] table@[c]
                    == if hit_within(c, code as int, k) {
                    id
                } else {
                    before[c]
                } by {
                    assert(prior[c] == if hit_within(c, code as int, (k - 1) as nat) {
                        id
                    } else {
                        before[c]
                    });
                }
            }
            base = base + 1;
        }
        pos = pos + 1;
    }
    proof {
        assert forall|c: int| 0 <= c < CODE_SPACE implies #[trigger] table@[c]
            == if one_substitution(c, code as int) {
            id
        } else {
            before[c]
        } by {
            lemma_hit_within_all(c, code as int);
        }
    }
}

} // verus!
