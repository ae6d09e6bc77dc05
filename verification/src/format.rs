//! Numbers as text: decimal digits, digit grouping, hexadecimal colors.
use vstd::prelude::*;
use vstd::string::StringExecFns;
use crate::text::{
    copy_chars, free_of, from_chars, in_class, is_whitespace, lemma_split_on_append, lemma_split_on_single,
    lemma_strip_leading_at, lemma_strip_trailing_at, slice_chars, split_on, strip_leading, strip_leading_chars, to_chars, trim, trim_chars, CharClass,
};

verus! {

/// The decimal digit character for `d < 10`.
pub open spec fn digit_char(d: nat) -> char {
    (48 + d) as char
}

/// The decimal digits of `n`, most significant first (`u64`'s `Display`).
pub open spec fn decimal(n: nat) -> Seq<char>
    decreases n,
{
    if n < 10 {
        seq![digit_char(n)]
    } else {
        decimal(n / 10).push(digit_char(n % 10))
    }
}

fn digit(d: u64) -> (c: char)
    requires
        d < 10,
    ensures
        c == digit_char(d as nat),
{
    let b: u8 = (48 + d) as u8;
    b as char
}

pub fn decimal_chars(n: u64) -> (r: Vec<char>)
    ensures
        r@ == decimal(n as nat),
    decreases n,
{
    if n < 10 {
        let mut v: Vec<char> = Vec::new();
        v.push(digit(n));
        assert(v@ =~= seq![digit_char(n as nat)]);
        v
    } else {
        let mut v = decimal_chars(n / 10);
        v.push(digit(n % 10));
        v
    }
}

/// The number that decimal digits spell, most significant first.
pub open spec fn digits_value(d: Seq<char>) -> int
    decreases d.len(),
{
    if d.len() == 0 {
        0
    } else {
        digits_value(d.drop_last()) * 10 + (d.last() as int - '0' as int)
    }
}

/// The decimal digits of a number spell it back, each a character '0' to '9',
/// and the first is '0' only for zero itself.
pub proof fn lemma_decimal_spells_value(n: nat)
    ensures
        digits_value(decimal(n)) == n,
        forall|i: int| 0 <= i < decimal(n).len() ==> '0' <= #[trigger] decimal(n)[i] && decimal(n)[i] <= '9',
        decimal(n).len() >= 1,
        decimal(n)[0] == '0' ==> n == 0,
    decreases n,
{
    assert(digit_char(n % 10) as int == 48 + n % 10);
    if n >= 10 {
        lemma_decimal_spells_value(n / 10);
        let d = decimal(n);
        assert(d.len() > 0);
        assert(d.drop_last() =~= decimal(n / 10));
        assert(d.last() == digit_char(n % 10));
        assert(digits_value(d) == digits_value(decimal(n / 10)) * 10 + (d.last() as int - '0' as int));
        assert((n / 10) * 10 + n % 10 == n);
        assert(d.drop_last() =~= decimal(n / 10));
        assert forall|i: int| 0 <= i < d.len() implies '0' <= #[trigger] d[i] && d[i] <= '9' by {
            if i < d.len() - 1 {
                assert(d[i] == decimal(n / 10)[i]);
            }
        }
        assert(d[0] == decimal(n / 10)[0]);
    } else {
        let d = decimal(n);
        assert(d == seq![digit_char(n)]);
        assert(d.drop_last() =~= Seq::<char>::empty());
        assert(digits_value(Seq::<char>::empty()) == 0);
        assert(d.last() == digit_char(n));
        assert(n % 10 == n);
    }
}

/// `n` in decimal, as `n.to_string()` writes it.
pub fn decimal_string(n: u64) -> (r: String)
    ensures
        r@ == decimal(n as nat),
{
    let v = decimal_chars(n);
    from_chars(&v)
}

/// Digits with a ',' before each group of three counted from the right.
pub open spec fn group_digits(d: Seq<char>) -> Seq<char>
    decreases d.len(),
{
    if d.len() <= 3 {
        d
    } else {
        group_digits(d.take(d.len() - 3)) + seq![','] + d.skip(d.len() - 3)
    }
}

fn group_chars(d: &Vec<char>) -> (r: Vec<char>)
    ensures
        r@ == group_digits(d@),
    decreases d.len(),
{
    if d.len() <= 3 {
        copy_chars(d)
    } else {
        let head = slice_chars(d, 0, d.len() - 3);
        let mut r = group_chars(&head);
        r.push(',');
        let mut k: usize = d.len() - 3;
        let ghost mid = r@;
        while k < d.len()
            invariant
                3 < d.len(),
                d.len() - 3 <= k <= d.len(),
                r@ == mid + d@.subrange(d.len() - 3, k as int),
            decreases d.len() - k,
        {
            r.push(d[k]);
            k = k + 1;
            assert(r@ =~= mid + d@.subrange(d.len() - 3, k as int));
        }
        assert(head@ =~= d@.take(d.len() - 3));
        assert(r@ =~= group_digits(d@.take(d.len() - 3)) + seq![','] + d@.skip(d.len() - 3));
        r
    }
}

/// `s` with its ',' characters removed.
pub open spec fn drop_commas(s: Seq<char>) -> Seq<char>
    decreases s.len(),
{
    if s.len() == 0 {
        s
    } else if s.last() == ',' {
        drop_commas(s.drop_last())
    } else {
        drop_commas(s.drop_last()).push(s.last())
    }
}

proof fn lemma_drop_commas_add(a: Seq<char>, b: Seq<char>)
    ensures
        drop_commas(a + b) == drop_commas(a) + drop_commas(b),
    decreases b.len(),
{
    if b.len() == 0 {
        assert(a + b =~= a);
        assert(drop_commas(a) + drop_commas(b) =~= drop_commas(a));
    } else {
        assert((a + b).drop_last() =~= a + b.drop_last());
        lemma_drop_commas_add(a, b.drop_last());
        if b.last() != ',' {
            assert(drop_commas(a) + drop_commas(b) =~= (drop_commas(a) + drop_commas(b.drop_last())).push(
                b.last(),
            ));
        }
    }
}

proof fn lemma_drop_commas_none(s: Seq<char>)
    requires
        !s.contains(','),
    ensures
        drop_commas(s) == s,
    decreases s.len(),
{
    if s.len() > 0 {
        assert(s.last() == s[s.len() - 1]);
        assert(!s.drop_last().contains(',')) by {
            if s.drop_last().contains(',') {
                let i = choose|i: int| 0 <= i < s.drop_last().len() && s.drop_last()[i] == ',';
                assert(s[i] == ',');
            }
        }
        lemma_drop_commas_none(s.drop_last());
        assert(s.drop_last().push(s.last()) =~= s);
    }
}

/// Removing the separators from grouped digits gives the digits back.
pub proof fn lemma_group_digits_drop_commas(d: Seq<char>)
    requires
        !d.contains(','),
    ensures
        drop_commas(group_digits(d)) == d,
    decreases d.len(),
{
    if d.len() <= 3 {
        lemma_drop_commas_none(d);
    } else {
        let head = d.take(d.len() - 3);
        let tail = d.skip(d.len() - 3);
        assert(!head.contains(',')) by {
            if head.contains(',') {
                let i = choose|i: int| 0 <= i < head.len() && head[i] == ',';
                assert(d[i] == ',');
            }
        }
        assert(!tail.contains(',')) by {
            if tail.contains(',') {
                let i = choose|i: int| 0 <= i < tail.len() && tail[i] == ',';
                assert(d[i + d.len() - 3] == ',');
            }
        }
        lemma_group_digits_drop_commas(head);
        lemma_drop_commas_none(tail);
        lemma_drop_commas_add(group_digits(head) + seq![','], tail);
        lemma_drop_commas_add(group_digits(head), seq![',']);
        assert(drop_commas(seq![',']) =~= Seq::<char>::empty()) by {
            let c = seq![','];
            assert(c.len() == 1 && c.last() == ',');
            assert(c.drop_last() =~= Seq::<char>::empty());
            assert(drop_commas(c.drop_last()) =~= Seq::<char>::empty());
        }
        assert(head + tail =~= d);
    }
}

proof fn lemma_decimal_digits(n: nat)
    ensures
        !decimal(n).contains(','),
        decimal(n).len() > 0,
    decreases n,
{
    if n >= 10 {
        lemma_decimal_digits(n / 10);
        let d = decimal(n);
        assert(d.drop_last() =~= decimal(n / 10));
        if d.contains(',') {
            let i = choose|i: int| 0 <= i < d.len() && d[i] == ',';
            if i < d.len() - 1 {
                assert(decimal(n / 10)[i] == ',');
            }
        }
    }
}

/// Removing the ',' from a formatted count gives its decimal digits back.
pub proof fn lemma_formatted_number_digits(value: u64)
    ensures
        drop_commas(group_digits(decimal(value as nat))) == decimal(value as nat),
{
    lemma_decimal_digits(value as nat);
    lemma_group_digits_drop_commas(decimal(value as nat));
}

/// How many ',' a text holds.
pub open spec fn comma_count(s: Seq<char>) -> int {
    s.len() - drop_commas(s).len()
}

proof fn lemma_group_digits_shape(d: Seq<char>)
    requires
        d.len() > 0,
        !d.contains(','),
    ensures
        group_digits(d).len() == d.len() + (d.len() - 1) / 3,
        ({
            let g = split_on(group_digits(d), CharClass::Exactly(','));
            &&& g.len() == (d.len() - 1) / 3 + 1
            &&& 1 <= g[0].len() <= 3
            &&& forall|i: int| 1 <= i < g.len() ==> (#[trigger] g[i]).len() == 3
            &&& forall|i: int| 0 <= i < g.len() ==> !(#[trigger] g[i]).contains(',')
        }),
    decreases d.len(),
{
    if d.len() <= 3 {
        assert(free_of(d, CharClass::Exactly(','))) by {
            assert forall|i: int| 0 <= i < d.len() implies !in_class(CharClass::Exactly(','), #[trigger] d[i]) by {
                if d[i] == ',' {
                    assert(d.contains(','));
                }
            }
        }
        lemma_split_on_single(d, CharClass::Exactly(','));
    } else {
        let head = d.take(d.len() - 3);
        let tail = d.skip(d.len() - 3);
        assert(!head.contains(',')) by {
            if head.contains(',') {
                let i = choose|i: int| 0 <= i < head.len() && head[i] == ',';
                assert(d[i] == ',');
            }
        }
        assert(free_of(tail, CharClass::Exactly(','))) by {
            assert forall|i: int| 0 <= i < tail.len() implies !in_class(CharClass::Exactly(','), #[trigger] tail[i]) by {
                if tail[i] == ',' {
                    assert(d[i + d.len() - 3] == ',');
                    assert(d.contains(','));
                }
            }
        }
        assert(!tail.contains(',')) by {
            if tail.contains(',') {
                let i = choose|i: int| 0 <= i < tail.len() && tail[i] == ',';
                assert(!in_class(CharClass::Exactly(','), tail[i]));
            }
        }
        lemma_group_digits_shape(head);
        lemma_split_on_append(group_digits(head), ',', tail, CharClass::Exactly(','));
        let gh = split_on(group_digits(head), CharClass::Exactly(','));
        let g = split_on(group_digits(d), CharClass::Exactly(','));
        assert(g == gh.push(tail));
        assert forall|i: int| 1 <= i < g.len() implies (#[trigger] g[i]).len() == 3 by {
            if i < gh.len() {
                assert(g[i] == gh[i]);
            }
        }
        assert forall|i: int| 0 <= i < g.len() implies !(#[trigger] g[i]).contains(',') by {
            if i < gh.len() {
                assert(g[i] == gh[i]);
            }
        }
        assert(g[0] == gh[0]);
    }
}

/// A formatted count: its ',' separate a first group of one to three digits
/// from groups of exactly three, and there are (digits - 1) / 3 of them.
pub proof fn lemma_formatted_number_groups(value: u64)
    ensures
        ({
            let d = decimal(value as nat);
            let g = split_on(group_digits(d), CharClass::Exactly(','));
            &&& comma_count(group_digits(d)) == (d.len() - 1) / 3
            &&& g.len() == (d.len() - 1) / 3 + 1
            &&& 1 <= g[0].len() <= 3
            &&& forall|i: int| 1 <= i < g.len() ==> (#[trigger] g[i]).len() == 3
            &&& forall|i: int| 0 <= i < g.len() ==> !(#[trigger] g[i]).contains(',')
        }),
{
    lemma_decimal_digits(value as nat);
    lemma_group_digits_shape(decimal(value as nat));
    lemma_group_digits_drop_commas(decimal(value as nat));
}

/// A count in decimal with thousands separated by ',' ("1,234,567").
pub fn format_number(value: u64) -> (r: String)
    ensures
        r@ == group_digits(decimal(value as nat)),
{
    let d = decimal_chars(value);
    let g = group_chars(&d);
    from_chars(&g)
}

// ---------------------------------------------------------------------------
// Hexadecimal
// ---------------------------------------------------------------------------

/// The value of one hexadecimal digit, either case.
pub open spec fn hex_digit_value(c: char) -> Option<nat> {
    if '0' <= c && c <= '9' {
        Some((c as nat - 48) as nat)
    } else if 'a' <= c && c <= 'f' {
        Some((c as nat - 87) as nat)
    } else if 'A' <= c && c <= 'F' {
        Some((c as nat - 55) as nat)
    } else {
        None
    }
}

pub open spec fn all_hex(s: Seq<char>) -> bool {
    forall|i: int| 0 <= i < s.len() ==> (#[trigger] hex_digit_value(s[i])) is Some
}

/// The number that hexadecimal digits spell.
pub open spec fn hex_value(s: Seq<char>) -> nat
    decreases s.len(),
{
    if s.len() == 0 {
        0
    } else {
        hex_value(s.drop_last()) * 16 + hex_digit_value(s.last())->0
    }
}

fn hex_digit_exec(c: char) -> (r: Option<u32>)
    ensures
        match r {
            Some(v) => hex_digit_value(c) == Some(v as nat) && v < 16,
            None => hex_digit_value(c) is None,
        },
{
    if '0' <= c && c <= '9' {
        Some((c as u32) - 48)
    } else if 'a' <= c && c <= 'f' {
        Some((c as u32) - 87)
    } else if 'A' <= c && c <= 'F' {
        Some((c as u32) - 55)
    } else {
        None
    }
}

/// What `u32::from_str_radix(s, 16)` accepts among texts of six bytes: six hex
/// digits, or '+' and five hex digits.
pub open spec fn hex_six(s: Seq<char>) -> Option<nat> {
    if s.len() == 6 && all_hex(s) {
        Some(hex_value(s))
    } else if s.len() == 6 && s[0] == '+' && all_hex(s.drop_first()) {
        Some(hex_value(s.drop_first()))
    } else {
        None
    }
}

proof fn lemma_hex_value_bound(s: Seq<char>)
    requires
        all_hex(s),
    ensures
        hex_value(s) < pow16(s.len()),
    decreases s.len(),
{
    if s.len() > 0 {
        assert(all_hex(s.drop_last())) by {
            assert forall|i: int| 0 <= i < s.drop_last().len() implies (#[trigger] hex_digit_value(
                s.drop_last()[i],
            )) is Some by {
                assert(s.drop_last()[i] == s[i]);
            }
        }
        lemma_hex_value_bound(s.drop_last());
        assert(hex_digit_value(s[s.len() - 1]) is Some);
    }
}

pub open spec fn pow16(n: nat) -> nat
    decreases n,
{
    if n == 0 {
        1
    } else {
        16 * pow16((n - 1) as nat)
    }
}

/// The value of hex digits `v[from..]`, which must all be hex digits.
fn hex_value_exec(v: &Vec<char>, from: usize) -> (r: Option<u32>)
    requires
        from <= v.len(),
        v.len() - from <= 6,
    ensures
        match r {
            Some(x) => all_hex(v@.skip(from as int)) && x as nat == hex_value(v@.skip(from as int)),
            None => !all_hex(v@.skip(from as int)),
        },
{
    let ghost s = v@.skip(from as int);
    let mut acc: u32 = 0;
    let mut k: usize = from;
    assert(s.take(0) =~= Seq::<char>::empty());
    while k < v.len()
        invariant
            from <= k <= v.len(),
            v.len() - from <= 6,
            s == v@.skip(from as int),
            all_hex(s.take(k - from)),
            acc as nat == hex_value(s.take(k - from)),
            acc < pow16((k - from) as nat),
        decreases v.len() - k,
    {
        let ghost pre = s.take(k - from);
        assert(s.take(k + 1 - from).drop_last() =~= pre);
        assert(s[k - from] == v@[k as int]);
        match hex_digit_exec(v[k]) {
            Some(d) => {
                assert(pow16((k + 1 - from) as nat) == 16 * pow16((k - from) as nat));
                assert(pow16((k - from) as nat) <= pow16(5)) by {
                    lemma_pow16_mono((k - from) as nat, 5);
                }
                assert(pow16(5) == 1048576) by {
                    reveal_with_fuel(pow16, 6);
                }
                acc = acc * 16 + d;
                k = k + 1;
                assert(all_hex(s.take(k - from))) by {
                    assert forall|i: int| 0 <= i < s.take(k - from).len() implies (
                    #[trigger] hex_digit_value(s.take(k - from)[i])) is Some by {
                        if i < k - 1 - from {
                            assert(s.take(k - from)[i] == pre[i]);
                        }
                    }
                }
            },
            None => {
                assert(hex_digit_value(s[k - from]) is None);
                return None;
            },
        }
    }
    assert(s.take(v.len() - from) =~= s);
    Some(acc)
}

proof fn lemma_pow16_mono(a: nat, b: nat)
    requires
        a <= b,
    ensures
        pow16(a) <= pow16(b),
    decreases b,
{
    if a < b {
        lemma_pow16_mono(a, (b - 1) as nat);
    }
}

/// Red, green and blue of a color written "#rrggbb": the text is trimmed and
/// stripped of leading '#' first, then must be what `hex_six` accepts.
pub open spec fn parsed_color(value: Seq<char>) -> Option<(u8, u8, u8)> {
    match hex_six(strip_leading(trim(value), CharClass::Exactly('#'))) {
        Some(v) => Some(((v / 65536 % 256) as u8, (v / 256 % 256) as u8, (v % 256) as u8)),
        None => None,
    }
}

pub fn parse_hex_color(value: &str) -> (r: Option<(u8, u8, u8)>)
    ensures
        r == parsed_color(value@),
{
    let chars = to_chars(value);
    let trimmed = trim_chars(&chars);
    let t = strip_leading_chars(&trimmed, CharClass::Exactly('#'));
    if t.len() != 6 {
        return None;
    }
    let rgb: u32 = match hex_value_exec(&t, 0) {
        Some(v) => {
            assert(t@.skip(0) =~= t@);
            v
        },
        None => {
            assert(t@.skip(0) =~= t@);
            if t[0] == '+' {
                match hex_value_exec(&t, 1) {
                    Some(v) => {
                        assert(t@.skip(1) =~= t@.drop_first());
                        v
                    },
                    None => {
                        assert(t@.skip(1) =~= t@.drop_first());
                        return None;
                    },
                }
            } else {
                return None;
            }
        },
    };
    Some((((rgb / 65536) % 256) as u8, ((rgb / 256) % 256) as u8, (rgb % 256) as u8))
}

/// The lower-case hexadecimal digit for `d < 16`.
pub open spec fn hex_char(d: nat) -> char {
    if d < 10 {
        (48 + d) as char
    } else {
        (87 + d) as char
    }
}

fn hex_char_exec(d: u8) -> (c: char)
    requires
        d < 16,
    ensures
        c == hex_char(d as nat),
{
    if d < 10 {
        let b: u8 = 48 + d;
        b as char
    } else {
        let b: u8 = 87 + d;
        b as char
    }
}

/// A byte as two lower-case hexadecimal digits (`{:02x}`).
pub open spec fn byte_hex(b: u8) -> Seq<char> {
    seq![hex_char((b / 16) as nat), hex_char((b % 16) as nat)]
}

/// "#rrggbb" in lower case.
pub fn hex_color(r: u8, g: u8, b: u8) -> (s: String)
    ensures
        s@ == seq!['#'] + byte_hex(r) + byte_hex(g) + byte_hex(b),
{
    let mut v: Vec<char> = Vec::new();
    v.push('#');
    v.push(hex_char_exec(r / 16));
    v.push(hex_char_exec(r % 16));
    v.push(hex_char_exec(g / 16));
    v.push(hex_char_exec(g % 16));
    v.push(hex_char_exec(b / 16));
    v.push(hex_char_exec(b % 16));
    assert(v@ =~= seq!['#'] + byte_hex(r) + byte_hex(g) + byte_hex(b));
    from_chars(&v)
}

/// Bytes as lower-case hexadecimal, two digits each (`{:x}` of a digest).
pub open spec fn hex_bytes(bytes: Seq<u8>) -> Seq<char>
    decreases bytes.len(),
{
    if bytes.len() == 0 {
        Seq::empty()
    } else {
        hex_bytes(bytes.drop_last()) + byte_hex(bytes.last())
    }
}

/// Two hexadecimal digits per byte.
pub proof fn lemma_hex_bytes_len(bytes: Seq<u8>)
    ensures
        hex_bytes(bytes).len() == 2 * bytes.len(),
    decreases bytes.len(),
{
    if bytes.len() > 0 {
        lemma_hex_bytes_len(bytes.drop_last());
    }
}

pub fn hex_encode(bytes: &Vec<u8>) -> (s: String)
    ensures
        s@ == hex_bytes(bytes@),
{
    let mut v: Vec<char> = Vec::new();
    let mut i: usize = 0;
    assert(bytes@.take(0) =~= Seq::<u8>::empty());
    while i < bytes.len()
        invariant
            i <= bytes.len(),
            v@ == hex_bytes(bytes@.take(i as int)),
        decreases bytes.len() - i,
    {
        let b = bytes[i];
        v.push(hex_char_exec(b / 16));
        v.push(hex_char_exec(b % 16));
        assert(bytes@.take(i + 1).drop_last() =~= bytes@.take(i as int));
        i = i + 1;
        assert(v@ =~= hex_bytes(bytes@.take(i as int)));
    }
    assert(bytes@.take(bytes.len() as int) =~= bytes@);
    from_chars(&v)
}

proof fn lemma_hex_char_value(d: nat)
    requires
        d < 16,
    ensures
        hex_digit_value(hex_char(d)) == Some(d),
        !crate::text::is_whitespace(hex_char(d)),
        hex_char(d) != '#',
{
}

proof fn lemma_six_digits(r: u8, g: u8, b: u8)
    ensures
        ({
            let digits = byte_hex(r) + byte_hex(g) + byte_hex(b);
            &&& digits.len() == 6
            &&& all_hex(digits)
            &&& hex_value(digits) == r as nat * 65536 + g as nat * 256 + b as nat
        }),
{
    let digits = byte_hex(r) + byte_hex(g) + byte_hex(b);
    let ds = seq![
        (r / 16) as nat,
        (r % 16) as nat,
        (g / 16) as nat,
        (g % 16) as nat,
        (b / 16) as nat,
        (b % 16) as nat,
    ];
    assert forall|i: int| 0 <= i < 6 implies hex_digit_value(#[trigger] digits[i]) == Some(ds[i]) by {
        lemma_hex_char_value(ds[i]);
    }
    assert(digits.take(0) =~= Seq::<char>::empty());
    assert(digits.take(1).drop_last() =~= digits.take(0));
    assert(digits.take(2).drop_last() =~= digits.take(1));
    assert(digits.take(3).drop_last() =~= digits.take(2));
    assert(digits.take(4).drop_last() =~= digits.take(3));
    assert(digits.take(5).drop_last() =~= digits.take(4));
    assert(digits.take(6).drop_last() =~= digits.take(5));
    assert(digits.take(6) =~= digits);
    let v1 = hex_value(digits.take(1));
    let v2 = hex_value(digits.take(2));
    let v3 = hex_value(digits.take(3));
    let v4 = hex_value(digits.take(4));
    let v5 = hex_value(digits.take(5));
    let v6 = hex_value(digits.take(6));
    assert forall|i: int| 0 <= i < 6 implies #[trigger] digits.take(i + 1).last() == digits[i] by {}
    assert(hex_digit_value(digits[0]) == Some(ds[0]));
    assert(hex_digit_value(digits[1]) == Some(ds[1]));
    assert(hex_digit_value(digits[2]) == Some(ds[2]));
    assert(hex_digit_value(digits[3]) == Some(ds[3]));
    assert(hex_digit_value(digits[4]) == Some(ds[4]));
    assert(hex_digit_value(digits[5]) == Some(ds[5]));
    assert(digits.take(1).last() == digits[0]);
    assert(digits.take(2).last() == digits[1]);
    assert(digits.take(3).last() == digits[2]);
    assert(digits.take(4).last() == digits[3]);
    assert(digits.take(5).last() == digits[4]);
    assert(digits.take(6).last() == digits[5]);
    assert(hex_value(digits.take(0)) == 0);
    assert(hex_value(digits.take(1)) == hex_value(digits.take(1).drop_last()) * 16 + hex_digit_value(
        digits.take(1).last(),
    )->0);
    assert(hex_value(digits.take(1).drop_last()) == 0);
    assert(hex_digit_value(digits.take(1).last())->0 == ds[0]);
    assert(v1 == ds[0]);
    assert(v2 == v1 * 16 + ds[1]);
    assert(v3 == v2 * 16 + ds[2]);
    assert(v4 == v3 * 16 + ds[3]);
    assert(v5 == v4 * 16 + ds[4]);
    assert(v6 == v5 * 16 + ds[5]);
    let rr = r as nat;
    let gg = g as nat;
    let bb = b as nat;
    assert(rr == ds[0] * 16 + ds[1]);
    assert(gg == ds[2] * 16 + ds[3]);
    assert(bb == ds[4] * 16 + ds[5]);
    assert(v6 == rr * 65536 + gg * 256 + bb) by (nonlinear_arith)
        requires
            v2 == v1 * 16 + ds[1],
            v3 == v2 * 16 + ds[2],
            v4 == v3 * 16 + ds[3],
            v5 == v4 * 16 + ds[4],
            v6 == v5 * 16 + ds[5],
            v1 == ds[0],
            rr == ds[0] * 16 + ds[1],
            gg == ds[2] * 16 + ds[3],
            bb == ds[4] * 16 + ds[5],
    ;
}

/// A color printed by `hex_color` parses back to the same channels.
pub proof fn lemma_hex_color_round_trip(r: u8, g: u8, b: u8)
    ensures
        parsed_color(seq!['#'] + byte_hex(r) + byte_hex(g) + byte_hex(b)) == Some((r, g, b)),
{
    let digits = byte_hex(r) + byte_hex(g) + byte_hex(b);
    let text = seq!['#'] + byte_hex(r) + byte_hex(g) + byte_hex(b);
    lemma_six_digits(r, g, b);
    assert(text =~= seq!['#'] + digits);
    assert(forall|i: int| 0 <= i < 6 ==> hex_digit_value(#[trigger] digits[i]) is Some);
    assert forall|i: int| 0 <= i < 6 implies !crate::text::is_whitespace(#[trigger] digits[i]) && digits[i] != '#' by {
        assert(hex_digit_value(digits[i]) is Some);
    }
    // Trimming leaves the text as it is.
    assert(crate::text::strip_leading(text, CharClass::Whitespace) == text);
    assert(text.last() == digits[5]);
    assert(crate::text::strip_trailing(text, CharClass::Whitespace) == text);
    assert(trim(text) == text);
    // One '#' goes.
    assert(text.drop_first() =~= digits);
    assert(strip_leading(digits, CharClass::Exactly('#')) == digits);
    assert(strip_leading(text, CharClass::Exactly('#')) == digits);
    let v = r as nat * 65536 + g as nat * 256 + b as nat;
    assert(hex_six(digits) == Some(v));
    assert(v / 65536 % 256 == r as nat) by (nonlinear_arith)
        requires
            v == r as nat * 65536 + g as nat * 256 + b as nat,
            r < 256,
            g < 256,
            b < 256,
    ;
    assert(v / 256 % 256 == g as nat) by (nonlinear_arith)
        requires
            v == r as nat * 65536 + g as nat * 256 + b as nat,
            r < 256,
            g < 256,
            b < 256,
    ;
    assert(v % 256 == b as nat) by (nonlinear_arith)
        requires
            v == r as nat * 65536 + g as nat * 256 + b as nat,
            b < 256,
    ;
}

proof fn lemma_hex_value_same_digits(a: Seq<char>, b: Seq<char>)
    requires
        a.len() == b.len(),
        forall|i: int| 0 <= i < a.len() ==> hex_digit_value(#[trigger] a[i]) == hex_digit_value(b[i]),
    ensures
        hex_value(a) == hex_value(b),
        all_hex(a) == all_hex(b),
    decreases a.len(),
{
    if a.len() > 0 {
        assert forall|i: int| 0 <= i < a.drop_last().len() implies hex_digit_value(
            #[trigger] a.drop_last()[i],
        ) == hex_digit_value(b.drop_last()[i]) by {
            assert(a.drop_last()[i] == a[i] && b.drop_last()[i] == b[i]);
        }
        lemma_hex_value_same_digits(a.drop_last(), b.drop_last());
        assert(hex_digit_value(a[a.len() - 1]) == hex_digit_value(b[b.len() - 1]));
    }
    if all_hex(a) {
        assert forall|i: int| 0 <= i < b.len() implies (#[trigger] hex_digit_value(b[i])) is Some by {
            assert(hex_digit_value(a[i]) is Some);
        }
    }
    if all_hex(b) {
        assert forall|i: int| 0 <= i < a.len() implies (#[trigger] hex_digit_value(a[i])) is Some by {
            assert(hex_digit_value(b[i]) is Some);
        }
    }
}

/// A hexadecimal digit is neither whitespace nor '#'.
proof fn lemma_hex_digit_plain(c: char)
    requires
        hex_digit_value(c) is Some,
    ensures
        !is_whitespace(c),
        c != '#',
{
}

/// `lead + x + trail` trims to `x` when `lead` and `trail` are whitespace and
/// `x` starts and ends with something else.
proof fn lemma_trim_around(lead: Seq<char>, x: Seq<char>, trail: Seq<char>)
    requires
        x.len() > 0,
        !is_whitespace(x[0]),
        !is_whitespace(x.last()),
        forall|i: int| 0 <= i < lead.len() ==> is_whitespace(#[trigger] lead[i]),
        forall|i: int| 0 <= i < trail.len() ==> is_whitespace(#[trigger] trail[i]),
    ensures
        trim(lead + x + trail) == x,
{
    let s = lead + x + trail;
    assert forall|j: int| 0 <= j < lead.len() implies in_class(CharClass::Whitespace, #[trigger] s[j]) by {
        assert(s[j] == lead[j]);
    }
    assert(s[lead.len() as int] == x[0]);
    lemma_strip_leading_at(s, CharClass::Whitespace, lead.len() as int);
    let t = s.skip(lead.len() as int);
    assert(t =~= x + trail);
    assert forall|j: int| x.len() <= j < t.len() implies in_class(CharClass::Whitespace, #[trigger] t[j]) by {
        assert(t[j] == trail[j - x.len()]);
    }
    assert(t[x.len() - 1] == x.last());
    lemma_strip_trailing_at(t, CharClass::Whitespace, x.len() as int);
    assert(t.take(x.len() as int) =~= x);
}

/// A color parses the same with its six digits in either case, with or
/// without a leading '#', and with whitespace around it.
pub proof fn lemma_color_forms_parse_alike(h: Seq<char>, u: Seq<char>, lead: Seq<char>, trail: Seq<char>)
    requires
        h.len() == 6,
        all_hex(h),
        u.len() == 6,
        forall|i: int| 0 <= i < 6 ==> hex_digit_value(#[trigger] u[i]) == hex_digit_value(h[i]),
        forall|i: int| 0 <= i < lead.len() ==> is_whitespace(#[trigger] lead[i]),
        forall|i: int| 0 <= i < trail.len() ==> is_whitespace(#[trigger] trail[i]),
    ensures
        parsed_color(lead + seq!['#'] + u + trail) == parsed_color(seq!['#'] + h),
        parsed_color(lead + u + trail) == parsed_color(seq!['#'] + h),
        parsed_color(seq!['#'] + h) is Some,
{
    lemma_hex_value_same_digits(u, h);
    assert(hex_digit_value(u[0]) is Some);
    assert(hex_digit_value(u[5]) is Some);
    assert(hex_digit_value(h[0]) is Some);
    lemma_hex_digit_plain(u[0]);
    lemma_hex_digit_plain(u[5]);
    lemma_hex_digit_plain(h[0]);
    lemma_hex_digit_plain(h[5]);
    let hu = seq!['#'] + u;
    let hh = seq!['#'] + h;
    // Trimming.
    assert(hu.last() == u[5] && hh.last() == h[5]);
    lemma_trim_around(lead, hu, trail);
    lemma_trim_around(lead, u, trail);
    lemma_trim_around(Seq::empty(), hh, Seq::empty());
    assert(Seq::<char>::empty() + hh + Seq::<char>::empty() =~= hh);
    assert(lead + seq!['#'] + u + trail =~= lead + hu + trail);
    // Stripping the '#'.
    assert(hu.drop_first() =~= u);
    assert(hh.drop_first() =~= h);
    assert(strip_leading(u, CharClass::Exactly('#')) == u);
    assert(strip_leading(hu.drop_first(), CharClass::Exactly('#')) == u);
    assert(strip_leading(hh.drop_first(), CharClass::Exactly('#')) == h);
    assert(strip_leading(hu, CharClass::Exactly('#')) == u);
    assert(strip_leading(hh, CharClass::Exactly('#')) == h);
}

/// A language color that is not written "#RRGGBB".
#[derive(Clone, Debug)]
pub struct InvalidColor {
    pub color: String,
}

impl InvalidColor {
    pub fn message(&self) -> (r: String)
        ensures
            r@ == "expected #RRGGBB, got "@ + self.color@,
    {
        let mut m = "expected #RRGGBB, got ".to_owned();
        m.append(self.color.as_str());
        m
    }
}

/// '#' followed by six hexadecimal digits.
pub open spec fn is_rrggbb(color: Seq<char>) -> bool {
    color.len() == 7 && color[0] == '#' && all_hex(color.drop_first())
}

pub fn validate_color(color: &str) -> (r: Result<(), InvalidColor>)
    ensures
        is_rrggbb(color@) ==> r is Ok,
        !is_rrggbb(color@) ==> (r matches Err(e) && e.color@ == color@),
{
    let chars = to_chars(color);
    if chars.len() == 7 && chars[0] == '#' {
        match hex_value_exec(&chars, 1) {
            Some(_) => {
                assert(chars@.skip(1) =~= chars@.drop_first());
                return Ok(());
            },
            None => {
                assert(chars@.skip(1) =~= chars@.drop_first());
            },
        }
    }
    Err(InvalidColor { color: color.to_owned() })
}

/// A color that is absent, or written "#RRGGBB".
pub open spec fn color_ok(color: Option<String>) -> bool {
    match color {
        Some(c) => is_rrggbb(c@),
        None => true,
    }
}

/// The first of `colors` that is given but not written "#RRGGBB", with its
/// position; `None` when every given color is well formed.
pub fn first_invalid_color(colors: &Vec<Option<String>>) -> (r: Option<(usize, InvalidColor)>)
    ensures
        match r {
            Some((i, e)) => {
                &&& i < colors@.len()
                &&& !color_ok(colors@[i as int])
                &&& colors@[i as int] matches Some(c) && e.color@ == c@
                &&& forall|j: int| 0 <= j < i ==> color_ok(#[trigger] colors@[j])
            },
            None => forall|j: int| 0 <= j < colors@.len() ==> color_ok(#[trigger] colors@[j]),
        },
{
    let mut i: usize = 0;
    while i < colors.len()
        invariant
            i <= colors.len(),
            forall|j: int| 0 <= j < i ==> color_ok(#[trigger] colors@[j]),
        decreases colors.len() - i,
    {
        match &colors[i] {
            Some(c) => match validate_color(c.as_str()) {
                Ok(()) => {},
                Err(e) => {
                    return Some((i, e));
                },
            },
            None => {},
        }
        i = i + 1;
    }
    None
}

} // verus!
