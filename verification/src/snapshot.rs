use vstd::prelude::*;
use vstd::string::StrSliceExecFns;
use vstd::string::StringExecFns;
use vstd::arithmetic::div_mod::lemma_div_denominator;

verus! {

/// The character of the decimal digit `d`.
pub open spec fn digit_char(d: int) -> char {
    if d <= 0 {
        '0'
    } else if d == 1 {
        '1'
    } else if d == 2 {
        '2'
    } else if d == 3 {
        '3'
    } else if d == 4 {
        '4'
    } else if d == 5 {
        '5'
    } else if d == 6 {
        '6'
    } else if d == 7 {
        '7'
    } else if d == 8 {
        '8'
    } else {
        '9'
    }
}

/// Whether `c` is an ASCII decimal digit.
pub open spec fn is_digit(c: char) -> bool {
    '0' <= c && c <= '9'
}

/// The decimal representation of `n`, without leading zeros.
pub open spec fn decimal(n: nat) -> Seq<char>
    decreases n,
{
    if n < 10 {
        seq![digit_char(n as int)]
    } else {
        decimal(n / 10).push(digit_char((n % 10) as int))
    }
}

/// `s` with zeros put in front until it is `width` characters long.
pub open spec fn zero_pad(s: Seq<char>, width: nat) -> Seq<char> {
    if s.len() >= width {
        s
    } else {
        Seq::new((width - s.len()) as nat, |i: int| '0') + s
    }
}

/// The value of a string of decimal digits.
pub open spec fn digits_value(s: Seq<char>) -> nat
    decreases s.len(),
{
    if s.len() == 0 {
        0
    } else {
        digits_value(s.drop_last()) * 10 + ((s.last() as int - 48) as nat)
    }
}

/// Every character of `s` is a decimal digit.
pub open spec fn all_digits(s: Seq<char>) -> bool {
    forall|i: int| 0 <= i < s.len() ==> is_digit(#[trigger] s[i])
}

/// What parsing `s` as a `usize` gives: an optional `+`, then at least one
/// decimal digit, with a value that fits.
pub open spec fn parse_usize(s: Seq<char>) -> Option<usize> {
    let d = if s.len() > 0 && s[0] == '+' { s.drop_first() } else { s };
    if d.len() > 0 && all_digits(d) && digits_value(d) <= usize::MAX {
        Some(digits_value(d) as usize)
    } else {
        None
    }
}

/// The file name `<prefix>_<step as ten or more digits>.<extension>`.
pub open spec fn snapshot_name(prefix: Seq<char>, step: nat, extension: Seq<char>) -> Seq<char> {
    prefix + seq!['_'] + zero_pad(decimal(step), 10) + seq!['.'] + extension
}

/// The step that a file name of the form `<prefix>_<digits>.<extension>` carries.
pub open spec fn snapshot_step(name: Seq<char>, prefix: Seq<char>, extension: Seq<char>) -> Option<usize> {
    let head = prefix + seq!['_'];
    let tail = seq!['.'] + extension;
    if name.len() >= head.len() + tail.len() && name.take(head.len() as int) == head
        && name.skip(name.len() - tail.len()) == tail {
        parse_usize(name.subrange(head.len() as int, name.len() - tail.len()))
    } else {
        None
    }
}

/// The one-character string of the digit `d`.
fn digit_str(d: usize) -> (s: &'static str)
    requires
        d < 10,
    ensures
        s@ == seq![digit_char(d as int)],
{
    proof {
        reveal_strlit("0");
        reveal_strlit("1");
        reveal_strlit("2");
        reveal_strlit("3");
        reveal_strlit("4");
        reveal_strlit("5");
        reveal_strlit("6");
        reveal_strlit("7");
        reveal_strlit("8");
        reveal_strlit("9");
    }
    match d {
        0 => "0",
        1 => "1",
        2 => "2",
        3 => "3",
        4 => "4",
        5 => "5",
        6 => "6",
        7 => "7",
        8 => "8",
        _ => "9",
    }
}

/// The decimal digits of `n`, most significant first, as numbers.
fn decimal_digit_values(n: usize) -> (digits: Vec<usize>)
    ensures
        digits@.map_values(|d: usize| digit_char(d as int)) == decimal(n as nat),
        forall|i: int| 0 <= i < digits@.len() ==> #[trigger] digits@[i] < 10,
    decreases n,
{
    if n < 10 {
        let mut v = Vec::new();
        v.push(n);
        assert(v@.map_values(|d: usize| digit_char(d as int)) =~= decimal(n as nat));
        v
    } else {
        let mut v = decimal_digit_values(n / 10);
        let ghost before = v@;
        v.push(n % 10);
        assert(v@.map_values(|d: usize| digit_char(d as int))
            =~= before.map_values(|d: usize| digit_char(d as int)).push(digit_char((n % 10) as int)));
        v
    }
}

/// The snapshot file name `<prefix>_<step padded to ten digits>.<extension>`,
/// as in `particles_0000000042.parquet`.
pub fn snapshot_file_name(prefix: &str, step: usize, extension: &str) -> (name: String)
    ensures
        name@ == snapshot_name(prefix@, step as nat, extension@),
{
    proof {
        reveal_strlit("_");
        reveal_strlit(".");
        reveal_strlit("0");
    }
    let mut name = String::from_str(prefix);
    name.append("_");
    let digits = decimal_digit_values(step);
    let ghost dec = decimal(step as nat);
    let mut pad: usize = digits.len();
    let ghost base = name@;
    while pad < 10
        invariant
            digits@.len() <= pad <= 10 || (pad == digits@.len() && pad > 10),
            digits@.len() <= pad,
            name@ == base + Seq::new((pad - digits@.len()) as nat, |i: int| '0'),
        decreases 10 - pad,
    {
        proof {
            reveal_strlit("0");
        }
        let ghost before = name@;
        name.append("0");
        assert(before + "0"@ =~= base + Seq::new((pad - digits@.len()) as nat, |i: int| '0').push('0'));
        assert(Seq::new((pad - digits@.len()) as nat, |i: int| '0').push('0')
            =~= Seq::new((pad + 1 - digits@.len()) as nat, |i: int| '0'));
        pad = pad + 1;
    }
    let ghost padded = name@;
    let mut k: usize = 0;
    while k < digits.len()
        invariant
            k <= digits@.len(),
            forall|i: int| 0 <= i < digits@.len() ==> #[trigger] digits@[i] < 10,
            name@ == padded + digits@.take(k as int).map_values(|d: usize| digit_char(d as int)),
        decreases digits@.len() - k,
    {
        name.append(digit_str(digits[k]));
        assert(digits@.take(k + 1).map_values(|d: usize| digit_char(d as int))
            =~= digits@.take(k as int).map_values(|d: usize| digit_char(d as int)).push(digit_char(digits@[k as int] as int)));
        k = k + 1;
    }
    assert(digits@.take(digits@.len() as int) =~= digits@);
    assert(dec.len() == digits@.len());
    proof {
        if dec.len() >= 10 {
            assert(pad == digits@.len());
            assert(Seq::new((pad - digits@.len()) as nat, |i: int| '0') =~= Seq::<char>::empty());
        } else {
            assert(pad == 10);
        }
        assert(zero_pad(dec, 10) =~= Seq::new((pad - digits@.len()) as nat, |i: int| '0') + dec);
    }
    name.append(".");
    name.append(extension);
    assert(name@ =~= snapshot_name(prefix@, step as nat, extension@));
    name
}

/// A string of digits is worth at least any of its prefixes.
pub proof fn lemma_digits_value_prefix(s: Seq<char>, k: int)
    requires
        0 <= k <= s.len(),
        all_digits(s),
    ensures
        digits_value(s.take(k)) <= digits_value(s),
    decreases s.len(),
{
    if k < s.len() {
        assert(all_digits(s.drop_last()));
        lemma_digits_value_prefix(s.drop_last(), k);
        assert(s.drop_last().take(k) =~= s.take(k));
        assert(is_digit(s[s.len() - 1]));
    } else {
        assert(s.take(k) =~= s);
    }
}

/// Parses the characters of `name` at positions `start..end` as a `usize`.
fn parse_usize_range(name: &str, start: usize, end: usize) -> (r: Option<usize>)
    requires
        start <= end <= name@.len(),
    ensures
        r == parse_usize(name@.subrange(start as int, end as int)),
{
    let ghost s = name@.subrange(start as int, end as int);
    let mut i = start;
    if i < end && name.get_char(i) == '+' {
        i = i + 1;
    }
    let ghost d = if s.len() > 0 && s[0] == '+' { s.drop_first() } else { s };
    assert(d =~= name@.subrange(i as int, end as int));
    if i == end {
        return None;
    }
    let first = i;
    let mut v: usize = 0;
    while i < end
        invariant
            first <= i <= end <= name@.len(),
            first < end,
            s == name@.subrange(start as int, end as int),
            d == (if s.len() > 0 && s[0] == '+' { s.drop_first() } else { s }),
            d == name@.subrange(first as int, end as int),
            all_digits(d.take(i - first)),
            v == digits_value(d.take(i - first)),
        decreases end - i,
    {
        let c = name.get_char(i);
        let ghost k = i - first;
        assert(d[k] == c);
        if c < '0' || c > '9' {
            assert(!all_digits(d));
            return None;
        }
        let dig = (c as u32 - 48) as usize;
        assert(d.take(k + 1).drop_last() =~= d.take(k));
        assert(d.take(k + 1).last() == c);
        assert(all_digits(d.take(k + 1)));
        let next = match v.checked_mul(10) {
            Some(m) => m.checked_add(dig),
            None => None,
        };
        match next {
            Some(nv) => {
                v = nv;
            },
            None => {
                assert(digits_value(d.take(k + 1)) > usize::MAX);
                proof {
                    if all_digits(d) {
                        lemma_digits_value_prefix(d, k + 1);
                    }
                }
                return None;
            },
        }
        i = i + 1;
    }
    assert(d.take(end - first) =~= d);
    Some(v)
}

/// Whether the characters of `name` from position `at` on begin with those of `pattern`.
fn matches_at(name: &str, at: usize, pattern: &str) -> (b: bool)
    requires
        at <= name@.len(),
    ensures
        b == (at + pattern@.len() <= name@.len() && name@.subrange(at as int, at + pattern@.len()) == pattern@),
{
    let nl = name.unicode_len();
    let pl = pattern.unicode_len();
    if pl > nl - at {
        return false;
    }
    let mut k: usize = 0;
    while k < pl
        invariant
            k <= pl,
            pl == pattern@.len(),
            nl == name@.len(),
            at + pl <= nl,
            forall|m: int| 0 <= m < k ==> name@[at + m] == pattern@[m],
        decreases pl - k,
    {
        if name.get_char(at + k) != pattern.get_char(k) {
            assert(name@.subrange(at as int, at + pl)[k as int] != pattern@[k as int]);
            return false;
        }
        k = k + 1;
    }
    assert(name@.subrange(at as int, at + pl) =~= pattern@);
    true
}

/// The step in a snapshot file name `<prefix>_<digits>.<extension>`, or
/// `None` where the name has another form.
pub fn parse_snapshot_step(name: &str, prefix: &str, extension: &str) -> (step: Option<usize>)
    ensures
        step == snapshot_step(name@, prefix@, extension@),
{
    proof {
        reveal_strlit("_");
        reveal_strlit(".");
    }
    let ghost head = prefix@ + seq!['_'];
    let ghost tail = seq!['.'] + extension@;
    let nl = name.unicode_len();
    let pl = prefix.unicode_len();
    let el = extension.unicode_len();
    if pl >= nl || el >= nl - pl - 1 {
        return None;
    }
    let tail_start = nl - el - 1;
    assert(name@.len() >= head.len() + tail.len());
    let prefix_ok = matches_at(name, 0, prefix);
    let sep_ok = matches_at(name, pl, "_");
    let head_ok = prefix_ok && sep_ok;
    let dot_ok = matches_at(name, tail_start, ".");
    let ext_ok = matches_at(name, tail_start + 1, extension);
    let tail_ok = dot_ok && ext_ok;
    proof {
        assert("_"@ =~= seq!['_']);
        assert("."@ =~= seq!['.']);
        let t = name@.take(head.len() as int);
        assert(t =~= name@.subrange(0, pl as int) + name@.subrange(pl as int, pl + 1));
        if t == head {
            assert(name@.subrange(0, pl as int) =~= prefix@);
            assert(prefix_ok);
            assert(t[pl as int] == head[pl as int]);
            assert(head[pl as int] == '_');
            assert(name@.subrange(pl as int, pl + 1) =~= "_"@);
            assert(sep_ok);
        }
        if prefix_ok && sep_ok {
            assert(t =~= head);
        }
        let u = name@.skip(name@.len() - tail.len());
        assert(u =~= name@.subrange(tail_start as int, tail_start + 1) + name@.subrange(tail_start + 1, nl as int));
        if u == tail {
            assert(name@.subrange(tail_start as int, tail_start + 1) =~= "."@);
            assert(dot_ok);
            assert(tail.skip(1) =~= extension@);
            assert(u.skip(1) =~= name@.subrange(tail_start + 1, nl as int));
            assert(name@.subrange(tail_start + 1, nl as int) =~= extension@);
            assert(ext_ok);
        }
        if dot_ok && ext_ok {
            assert(u =~= tail);
        }
    }
    if !head_ok || !tail_ok {
        return None;
    }
    parse_usize_range(name, pl + 1, tail_start)
}

pub proof fn lemma_digit_char(d: int)
    requires
        0 <= d < 10,
    ensures
        digit_char(d) as int == 48 + d,
        is_digit(digit_char(d)),
{
}

pub proof fn lemma_decimal_facts(n: nat)
    ensures
        decimal(n).len() >= 1,
        all_digits(decimal(n)),
        digits_value(decimal(n)) == n,
        decimal(n)[0] != '+',
    decreases n,
{
    if n < 10 {
        lemma_digit_char(n as int);
        assert(decimal(n) == seq![digit_char(n as int)]);
        assert(decimal(n).drop_last() =~= Seq::<char>::empty());
        assert(decimal(n).last() == digit_char(n as int));
        assert(digits_value(decimal(n)) == digits_value(Seq::<char>::empty()) * 10 + n);
    } else {
        lemma_digit_char((n % 10) as int);
        lemma_decimal_facts(n / 10);
        let prev = decimal(n / 10);
        assert(decimal(n).drop_last() =~= prev);
        assert(decimal(n).last() == digit_char((n % 10) as int));
        assert(digits_value(decimal(n)) == digits_value(prev) * 10 + (n % 10));
        assert(n == (n / 10) * 10 + n % 10);
        assert(decimal(n)[0] == prev[0]);
        assert forall|i: int| 0 <= i < decimal(n).len() implies is_digit(#[trigger] decimal(n)[i]) by {
            if i < prev.len() {
                assert(decimal(n)[i] == prev[i]);
            }
        }
    }
}

pub proof fn lemma_leading_zeros(k: nat, s: Seq<char>)
    ensures
        digits_value(Seq::new(k, |i: int| '0') + s) == digits_value(s),
    decreases s.len(), k,
{
    let z = Seq::new(k, |i: int| '0');
    if s.len() == 0 {
        assert(z + s =~= z);
        if k > 0 {
            lemma_leading_zeros((k - 1) as nat, s);
            assert(z.drop_last() =~= Seq::new((k - 1) as nat, |i: int| '0'));
            assert(Seq::new((k - 1) as nat, |i: int| '0') + s =~= Seq::new((k - 1) as nat, |i: int| '0'));
        }
    } else {
        lemma_leading_zeros(k, s.drop_last());
        assert((z + s).drop_last() =~= z + s.drop_last());
        assert((z + s).last() == s.last());
    }
}

/// A snapshot file name gives back the step it was made from, whatever the
/// prefix and extension: a saved snapshot is found again by its step.
pub proof fn lemma_snapshot_name_round_trip(prefix: Seq<char>, step: usize, extension: Seq<char>)
    ensures
        snapshot_step(snapshot_name(prefix, step as nat, extension), prefix, extension) == Some(step),
{
    let head = prefix + seq!['_'];
    let tail = seq!['.'] + extension;
    let dec = decimal(step as nat);
    let padded = zero_pad(dec, 10);
    let name = snapshot_name(prefix, step as nat, extension);
    lemma_decimal_facts(step as nat);
    assert(name =~= head + padded + tail);
    assert(name.take(head.len() as int) =~= head);
    assert(name.skip(name.len() - tail.len()) =~= tail);
    assert(name.subrange(head.len() as int, name.len() - tail.len()) =~= padded);
    if dec.len() < 10 {
        lemma_leading_zeros((10 - dec.len()) as nat, dec);
        assert(padded[0] == '0');
        assert forall|i: int| 0 <= i < padded.len() implies is_digit(#[trigger] padded[i]) by {
            if i >= 10 - dec.len() {
                assert(padded[i] == dec[i - (10 - dec.len())]);
            }
        }
    }
    assert(all_digits(padded));
    assert(digits_value(padded) == step);
}

/// Ten to the power `e`.
pub open spec fn pow10(e: nat) -> nat
    decreases e,
{
    if e == 0 { 1 } else { 10 * pow10((e - 1) as nat) }
}

proof fn lemma_pow10_facts(a: nat, b: nat)
    requires
        a <= b,
    ensures
        1 <= pow10(a) <= pow10(b),
    decreases b,
{
    if a < b {
        lemma_pow10_facts(a, (b - 1) as nat);
    } else if a > 0 {
        lemma_pow10_facts((a - 1) as nat, (a - 1) as nat);
    }
}

/// The decimal form of `n` has as many digits as `n` needs, and its `i`-th
/// character is the digit of `n` of weight `10^(len - 1 - i)`.
pub proof fn lemma_decimal_digits(n: nat)
    ensures
        n < pow10(decimal(n).len()),
        decimal(n).len() > 1 ==> pow10((decimal(n).len() - 1) as nat) <= n,
        forall|i: int| 0 <= i < decimal(n).len() ==>
            #[trigger] decimal(n)[i] as int == 48 + (n / pow10((decimal(n).len() - 1 - i) as nat)) % 10,
    decreases n,
{
    let d = decimal(n);
    let len = d.len();
    if n < 10 {
        lemma_digit_char(n as int);
        assert(d == seq![digit_char(n as int)]);
        assert(pow10(1) == 10) by {
            assert(pow10(0) == 1);
        }
        assert(pow10(0) == 1);
        assert(n / 1 == n) by (nonlinear_arith);
    } else {
        let m = n / 10;
        let dm = decimal(m);
        lemma_decimal_digits(m);
        lemma_decimal_facts(m);
        lemma_digit_char((n % 10) as int);
        assert(d == dm.push(digit_char((n % 10) as int)));
        let lm = dm.len();
        assert(pow10(lm + 1) == 10 * pow10(lm));
        assert(n == 10 * m + n % 10);
        if lm > 1 {
            assert(pow10(lm) == 10 * pow10((lm - 1) as nat));
        } else {
            assert(pow10(1) == 10) by {
                assert(pow10(0) == 1);
            }
        }
        assert forall|i: int| 0 <= i < len implies
            #[trigger] d[i] as int == 48 + (n / pow10((len - 1 - i) as nat)) % 10 by {
            if i < lm {
                let e = (lm - 1 - i) as nat;
                lemma_pow10_facts(0, e);
                assert(d[i] == dm[i]);
                assert(pow10((len - 1 - i) as nat) == 10 * pow10(e));
                lemma_div_denominator(n as int, 10, pow10(e) as int);
            } else {
                assert(d[i] == digit_char((n % 10) as int));
                assert(pow10(0) == 1);
                assert(n / 1 == n) by (nonlinear_arith);
            }
        }
    }
}

/// What a snapshot file name is made of, character by character: the
/// prefix, `_`, a field of at least ten decimal digits that spells the step
/// (most significant first, padded with leading zeros to ten digits and no
/// longer than the step needs), `.`, and the extension. Every step below
/// `10^10` thus gets exactly ten digits.
pub proof fn lemma_snapshot_name_fields(prefix: Seq<char>, step: usize, extension: Seq<char>)
    ensures ({
        let name = snapshot_name(prefix, step as nat, extension);
        let p = prefix.len() as int;
        let f = name.len() - p - 2 - extension.len();
        &&& name.subrange(0, p) == prefix
        &&& name[p] == '_'
        &&& name[p + 1 + f] == '.'
        &&& name.subrange(p + 2 + f, name.len() as int) == extension
        &&& f >= 10
        &&& step < pow10(f as nat)
        &&& f > 10 ==> pow10((f - 1) as nat) <= step
        &&& (step < pow10(10) ==> f == 10)
        &&& forall|k: int| 0 <= k < f ==>
            #[trigger] name[p + 1 + k] as int == 48 + ((step as nat) / pow10((f - 1 - k) as nat)) % 10
    }),
{
    let name = snapshot_name(prefix, step as nat, extension);
    let p = prefix.len() as int;
    let dec = decimal(step as nat);
    let l = dec.len();
    let padded = zero_pad(dec, 10);
    lemma_decimal_digits(step as nat);
    lemma_decimal_facts(step as nat);
    assert(name =~= prefix + seq!['_'] + padded + seq!['.'] + extension);
    let f = padded.len() as int;
    assert(name.len() - p - 2 - extension.len() == f);
    assert(name.subrange(0, p) =~= prefix);
    assert(name.subrange(p + 2 + f, name.len() as int) =~= extension);
    assert forall|k: int| 0 <= k < f implies #[trigger] name[p + 1 + k] == padded[k] by {}
    if l >= 10 {
        assert(padded == dec);
        if step < pow10(10) {
            if l > 10 {
                lemma_pow10_facts(10, (l - 1) as nat);
            }
        }
    } else {
        let z = 10 - l;
        assert(f == 10);
        lemma_pow10_facts(l, 10);
        assert forall|k: int| 0 <= k < f implies
            #[trigger] name[p + 1 + k] as int == 48 + ((step as nat) / pow10((f - 1 - k) as nat)) % 10 by {
            assert(name[p + 1 + k] == padded[k]);
            if k < z {
                assert(padded[k] == '0');
                lemma_pow10_facts(l, (9 - k) as nat);
                assert((step as nat) / pow10((9 - k) as nat) == 0) by (nonlinear_arith)
                    requires step < pow10((9 - k) as nat), pow10((9 - k) as nat) >= 1;
            } else {
                assert(padded[k] == dec[k - z]);
                assert(dec[k - z] as int == 48 + ((step as nat) / pow10((l - 1 - (k - z)) as nat)) % 10);
            }
        }
    }
}

/// Entry `a` comes before entry `b` when trying the newest snapshot first:
/// a larger step first, and of equal steps the one listed first.
pub open spec fn newer_first(steps: Seq<usize>, a: usize, b: usize) -> bool {
    steps[a as int] > steps[b as int] || (steps[a as int] == steps[b as int] && a < b)
}

/// `order` lists every index of `steps` exactly once, newest step first.
pub open spec fn is_latest_first_order(steps: Seq<usize>, order: Seq<usize>) -> bool {
    &&& order.len() == steps.len()
    &&& forall|k: int| 0 <= k < order.len() ==> #[trigger] order[k] < steps.len()
    &&& forall|j: usize| j < steps.len() ==> #[trigger] order.contains(j)
    &&& forall|a: int, b: int| 0 <= a < b < order.len() ==> newer_first(steps, #[trigger] order[a], #[trigger] order[b])
}

/// The indices of the entries in the order in which snapshots are tried:
/// largest step first, entries with equal steps in their listed order.
pub fn latest_first(steps: &Vec<usize>) -> (order: Vec<usize>)
    ensures
        is_latest_first_order(steps@, order@),
{
    let n = steps.len();
    let mut order: Vec<usize> = Vec::new();
    let mut i: usize = 0;
    while i < n
        invariant
            i <= n,
            n == steps@.len(),
            order@.len() == i,
            forall|k: int| 0 <= k < order@.len() ==> #[trigger] order@[k] < i,
            forall|j: usize| j < i ==> #[trigger] order@.contains(j),
            forall|a: int, b: int| 0 <= a < b < order@.len() ==> newer_first(steps@, #[trigger] order@[a], #[trigger] order@[b]),
        decreases n - i,
    {
        let s = steps[i];
        let mut pos: usize = 0;
        while pos < order.len() && steps[order[pos]] >= s
            invariant
                pos <= order@.len(),
                order@.len() == i,
                i < n,
                n == steps@.len(),
                s == steps@[i as int],
                forall|k: int| 0 <= k < order@.len() ==> #[trigger] order@[k] < i,
                forall|k: int| 0 <= k < pos ==> steps@[#[trigger] order@[k] as int] >= s,
            decreases order@.len() - pos,
        {
            pos = pos + 1;
        }
        let ghost before = order@;
        order.insert(pos, i);
        assert(order@ == before.insert(pos as int, i));
        assert forall|k: int| 0 <= k < order@.len() implies #[trigger] order@[k] < i + 1 by {
            if k < pos {
                assert(order@[k] == before[k]);
            } else if k > pos {
                assert(order@[k] == before[k - 1]);
            }
        }
        assert forall|j: usize| j < i + 1 implies #[trigger] order@.contains(j) by {
            if j == i {
                assert(order@[pos as int] == i);
            } else {
                assert(before.contains(j));
                let k = choose|k: int| 0 <= k < before.len() && before[k] == j;
                if k < pos {
                    assert(order@[k] == j);
                } else {
                    assert(order@[k + 1] == j);
                }
            }
        }
        assert forall|a: int, b: int| 0 <= a < b < order@.len() implies
            newer_first(steps@, #[trigger] order@[a], #[trigger] order@[b]) by {
            if pos < before.len() {
                assert(steps@[before[pos as int] as int] < s);
            }
            if b < pos {
                assert(order@[a] == before[a] && order@[b] == before[b]);
            } else if b == pos {
                assert(order@[a] == before[a]);
            } else if a == pos {
                assert(order@[b] == before[b - 1]);
                if b - 1 > pos {
                    assert(newer_first(steps@, before[pos as int], before[b - 1]));
                }
            } else if a < pos {
                assert(order@[a] == before[a] && order@[b] == before[b - 1]);
            } else {
                assert(order@[a] == before[a - 1] && order@[b] == before[b - 1]);
            }
        }
        i = i + 1;
    }
    order
}

} // verus!
