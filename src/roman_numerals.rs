use vstd::prelude::*;

verus! {

/// The value of a Roman symbol; 0 for any other character.
pub open spec fn roman_value(c: char) -> nat {
    if c == 'I' {
        1
    } else if c == 'V' {
        5
    } else if c == 'X' {
        10
    } else if c == 'L' {
        50
    } else if c == 'C' {
        100
    } else if c == 'D' {
        500
    } else if c == 'M' {
        1000
    } else {
        0
    }
}

pub open spec fn is_roman_symbol(c: char) -> bool {
    roman_value(c) > 0
}

/// Every character of `s` is a Roman symbol.
pub open spec fn all_roman(s: Seq<char>) -> bool {
    forall|i: int| 0 <= i < s.len() ==> is_roman_symbol(#[trigger] s[i])
}

/// The number that Roman text denotes, read from the left: a symbol followed by a larger
/// one counts as their difference, any other symbol as its value.
pub open spec fn roman_total(s: Seq<char>) -> int
    decreases s.len(),
{
    if s.len() == 0 {
        0
    } else if s.len() >= 2 && roman_value(s[0]) < roman_value(s[1]) {
        roman_value(s[1]) - roman_value(s[0]) + roman_total(s.subrange(2, s.len() as int))
    } else {
        roman_value(s[0]) + roman_total(s.drop_first())
    }
}

/// The value of the `k`-th entry of the encoding table, largest first.
pub open spec fn table_value(k: int) -> nat {
    if k == 0 {
        1000
    } else if k == 1 {
        900
    } else if k == 2 {
        500
    } else if k == 3 {
        400
    } else if k == 4 {
        100
    } else if k == 5 {
        90
    } else if k == 6 {
        50
    } else if k == 7 {
        40
    } else if k == 8 {
        10
    } else if k == 9 {
        9
    } else if k == 10 {
        5
    } else if k == 11 {
        4
    } else {
        1
    }
}

/// The symbols of the `k`-th entry of the encoding table.
pub open spec fn table_symbols(k: int) -> Seq<char> {
    if k == 0 {
        seq!['M']
    } else if k == 1 {
        seq!['C', 'M']
    } else if k == 2 {
        seq!['D']
    } else if k == 3 {
        seq!['C', 'D']
    } else if k == 4 {
        seq!['C']
    } else if k == 5 {
        seq!['X', 'C']
    } else if k == 6 {
        seq!['L']
    } else if k == 7 {
        seq!['X', 'L']
    } else if k == 8 {
        seq!['X']
    } else if k == 9 {
        seq!['I', 'X']
    } else if k == 10 {
        seq!['V']
    } else if k == 11 {
        seq!['I', 'V']
    } else {
        seq!['I']
    }
}

/// The greedy encoding of `n` with the table entries from the `k`-th on.
pub open spec fn roman_from(n: nat, k: nat) -> Seq<char>
    decreases 13 - k, n,
{
    if k >= 13 {
        seq![]
    } else if n >= table_value(k as int) {
        table_symbols(k as int) + roman_from((n - table_value(k as int)) as nat, k)
    } else {
        roman_from(n, k + 1)
    }
}

/// The canonical Roman text of `n`: greedily the largest table entry that fits.
pub open spec fn roman_of(n: nat) -> Seq<char> {
    roman_from(n, 0)
}

/// The value of a Roman symbol, if `c` is one.
fn symbol_value(c: char) -> (r: Option<u32>)
    ensures
        r == (if is_roman_symbol(c) {
            Some(roman_value(c) as u32)
        } else {
            None
        }),
{
    if c == 'I' {
        Some(1)
    } else if c == 'V' {
        Some(5)
    } else if c == 'X' {
        Some(10)
    } else if c == 'L' {
        Some(50)
    } else if c == 'C' {
        Some(100)
    } else if c == 'D' {
        Some(500)
    } else if c == 'M' {
        Some(1000)
    } else {
        None
    }
}

/// Relies on `format!`: builds the message that names a character that is no Roman symbol.
#[verifier::external_body]
fn invalid_symbol_message(c: char) -> String {
    format!("Invalid Roman numeral: {}", c)
}

proof fn lemma_roman_total_nonneg(s: Seq<char>)
    ensures
        roman_total(s) >= 0,
    decreases s.len(),
{
    if s.len() >= 2 && roman_value(s[0]) < roman_value(s[1]) {
        lemma_roman_total_nonneg(s.subrange(2, s.len() as int));
    } else if s.len() > 0 {
        lemma_roman_total_nonneg(s.drop_first());
    }
}

/// The number that the Roman text `roman` denotes. Fails on empty text, on a character
/// that is no Roman symbol, and on a total above `u32::MAX`.
pub fn roman_to_u32(roman: &[char]) -> (r: Result<u32, String>)
    ensures
        r is Ok <==> roman@.len() > 0 && all_roman(roman@) && roman_total(roman@) <= u32::MAX,
        r matches Ok(v) ==> v == roman_total(roman@),
{
    if roman.len() == 0 {
        return Err("Empty Roman numeral".to_string());
    }
    let ghost s = roman@;
    let mut total: u32 = 0;
    let mut i: usize = 0;
    assert(s.subrange(0, s.len() as int) =~= s);
    while i < roman.len()
        invariant
            s == roman@,
            i <= s.len(),
            s.len() > 0,
            all_roman(s.subrange(0, i as int)),
            total + roman_total(s.subrange(i as int, s.len() as int)) == roman_total(s),
        decreases s.len() - i,
    {
        let ghost rest = s.subrange(i as int, s.len() as int);
        let current = match symbol_value(roman[i]) {
            Some(v) => v,
            None => {
                assert(!is_roman_symbol(s[i as int]));
                return Err(invalid_symbol_message(roman[i]));
            },
        };
        let mut step: u32 = current;
        let mut width: usize = 1;
        if i + 1 < roman.len() {
            let next = match symbol_value(roman[i + 1]) {
                Some(v) => v,
                None => {
                    assert(!is_roman_symbol(s[i + 1]));
                    return Err(invalid_symbol_message(roman[i + 1]));
                },
            };
            if current < next {
                step = next - current;
                width = 2;
            }
        }
        assert(rest[0] == s[i as int]);
        if width == 2 {
            assert(rest[1] == s[i + 1]);
            assert(rest.subrange(2, rest.len() as int) =~= s.subrange(i + 2, s.len() as int));
        } else {
            assert(rest.drop_first() =~= s.subrange(i + 1, s.len() as int));
        }
        proof {
            lemma_roman_total_nonneg(s.subrange(i + width, s.len() as int));
        }
        match total.checked_add(step) {
            Some(t) => {
                total = t;
            },
            None => {
                return Err("Roman numeral too large".to_string());
            },
        }
        assert(all_roman(s.subrange(0, i + width))) by {
            assert forall|j: int| 0 <= j < i + width implies is_roman_symbol(
                #[trigger] s.subrange(0, i + width)[j],
            ) by {
                if j < i {
                    assert(s.subrange(0, i as int)[j] == s[j]);
                }
            }
        }
        i = i + width;
    }
    assert(s.subrange(0, s.len() as int) =~= s);
    assert(s.subrange(s.len() as int, s.len() as int) =~= Seq::<char>::empty());
    Ok(total)
}

/// The `k`-th entry of the encoding table: its value and its symbols.
fn table_entry(k: usize) -> (e: (u32, Vec<char>))
    requires
        k < 13,
    ensures
        e.0 == table_value(k as int),
        e.1@ == table_symbols(k as int),
{
    let e = if k == 0 {
        (1000, vec!['M'])
    } else if k == 1 {
        (900, vec!['C', 'M'])
    } else if k == 2 {
        (500, vec!['D'])
    } else if k == 3 {
        (400, vec!['C', 'D'])
    } else if k == 4 {
        (100, vec!['C'])
    } else if k == 5 {
        (90, vec!['X', 'C'])
    } else if k == 6 {
        (50, vec!['L'])
    } else if k == 7 {
        (40, vec!['X', 'L'])
    } else if k == 8 {
        (10, vec!['X'])
    } else if k == 9 {
        (9, vec!['I', 'X'])
    } else if k == 10 {
        (5, vec!['V'])
    } else if k == 11 {
        (4, vec!['I', 'V'])
    } else {
        (1, vec!['I'])
    };
    assert(e.1@ =~= table_symbols(k as int));
    e
}

/// The canonical Roman text of `num` (empty for zero).
pub fn u32_to_roman(num: u32) -> (r: Vec<char>)
    ensures
        r@ == roman_of(num as nat),
{
    let mut result: Vec<char> = Vec::new();
    let mut rest: u32 = num;
    let mut k: usize = 0;
    while k < 13
        invariant
            k <= 13,
            result@ + roman_from(rest as nat, k as nat) == roman_of(num as nat),
        decreases 13 - k,
    {
        let (value, symbols) = table_entry(k);
        while rest >= value
            invariant
                k < 13,
                value == table_value(k as int),
                symbols@ == table_symbols(k as int),
                result@ + roman_from(rest as nat, k as nat) == roman_of(num as nat),
            decreases rest,
        {
            rest = rest - value;
            let ghost before = result@;
            let mut j: usize = 0;
            while j < symbols.len()
                invariant
                    j <= symbols@.len(),
                    result@ == before + symbols@.subrange(0, j as int),
                decreases symbols@.len() - j,
            {
                result.push(symbols[j]);
                j = j + 1;
                assert(result@ =~= before + symbols@.subrange(0, j as int));
            }
            assert(symbols@.subrange(0, symbols@.len() as int) =~= symbols@);
            assert(result@ + roman_from(rest as nat, k as nat) =~= before + (table_symbols(
                k as int,
            ) + roman_from(rest as nat, k as nat)));
        }
        k = k + 1;
    }
    assert(result@ + roman_from(rest as nat, 13) =~= result@);
    result
}

/// A greedy encoding from entry `k` on starts with the first symbol of some entry `j >= k`.
proof fn lemma_roman_from_lead(n: nat, k: nat)
    requires
        k <= 13,
    ensures
        roman_from(n, k).len() > 0 ==> exists|j: int|
            k <= j < 13 && roman_from(n, k)[0] == (#[trigger] table_symbols(j))[0],
    decreases 13 - k, n,
{
    if k < 13 {
        if n >= table_value(k as int) {
            assert(roman_from(n, k)[0] == table_symbols(k as int)[0]);
        } else {
            lemma_roman_from_lead(n, k + 1);
        }
    }
}

/// A greedy encoding from any entry but the last two-symbol ones on decodes to the number
/// and holds Roman symbols only.
proof fn lemma_roman_from_total(n: nat, k: nat)
    requires
        k <= 12,
    ensures
        roman_total(roman_from(n, k)) == n,
        all_roman(roman_from(n, k)),
    decreases 13 - k, n,
{
    let tv = table_value(k as int);
    let syms = table_symbols(k as int);
    if n >= tv {
        let m = (n - tv) as nat;
        let r = roman_from(m, k);
        lemma_roman_from_total(m, k);
        let full = syms + r;
        assert(roman_from(n, k) == full);
        if syms.len() == 2 {
            assert(full[0] == syms[0] && full[1] == syms[1]);
            assert(full.subrange(2, full.len() as int) =~= r);
        } else {
            assert(full[0] == syms[0]);
            assert(full.drop_first() =~= r);
            if r.len() > 0 {
                lemma_roman_from_lead(m, k);
                let j = choose|j: int| k <= j < 13 && r[0] == (#[trigger] table_symbols(j))[0];
                assert(full[1] == r[0]);
                assert(roman_value(table_symbols(j)[0]) <= roman_value(syms[0]));
            }
        }
        assert forall|i: int| 0 <= i < full.len() implies is_roman_symbol(#[trigger] full[i]) by {
            if i >= syms.len() {
                assert(full[i] == r[i - syms.len()]);
            }
        }
    } else if k < 12 {
        lemma_roman_from_total(n, k + 1);
    } else {
        assert(roman_from(n, 13) =~= Seq::<char>::empty());
    }
}

/// Encoding a positive number and decoding the text gives the number back; so encoding
/// the value of canonical text gives that text back.
pub proof fn lemma_roman_round_trip(n: nat)
    requires
        n >= 1,
    ensures
        roman_of(n).len() > 0,
        all_roman(roman_of(n)),
        roman_total(roman_of(n)) == n,
        roman_of(roman_total(roman_of(n)) as nat) == roman_of(n),
{
    lemma_roman_from_total(n, 0);
}

} // verus!
