use vstd::prelude::*;

use crate::product::{spec_pow10, Product, ProductModel};

verus! {

/// Index of the first occurrence of `d` in `s`; the length of `s` when `d`
/// does not occur.
pub open spec fn find_char(s: Seq<char>, d: char) -> nat
    decreases s.len(),
{
    if s.len() == 0 {
        0
    } else if s[0] == d {
        0
    } else {
        1 + find_char(s.skip(1), d)
    }
}

/// `s` split at every occurrence of `d`: always at least one piece, the
/// delimiters themselves dropped, empty pieces kept.
pub open spec fn split_on(s: Seq<char>, d: char) -> Seq<Seq<char>>
    decreases s.len(),
{
    let i = find_char(s, d) as int;
    if i < s.len() {
        seq![s.take(i)] + split_on(s.skip(i + 1), d)
    } else {
        seq![s]
    }
}

/// The characters the reader treats as blank space around a price.
pub open spec fn is_space_char(c: char) -> bool {
    c == ' ' || c == '\t' || c == '\r' || c == '\n'
}

pub open spec fn trim_start_spec(s: Seq<char>) -> Seq<char>
    decreases s.len(),
{
    if s.len() > 0 && is_space_char(s[0]) {
        trim_start_spec(s.skip(1))
    } else {
        s
    }
}

pub open spec fn trim_end_spec(s: Seq<char>) -> Seq<char>
    decreases s.len(),
{
    if s.len() > 0 && is_space_char(s.last()) {
        trim_end_spec(s.drop_last())
    } else {
        s
    }
}

/// Blank space stripped from both ends.
pub open spec fn trim_spec(s: Seq<char>) -> Seq<char> {
    trim_end_spec(trim_start_spec(s))
}

/// Every currency symbol removed, wherever it stands.
pub open spec fn strip_dollars(s: Seq<char>) -> Seq<char> {
    s.filter(|c: char| c != '$')
}

pub open spec fn is_digit_char(c: char) -> bool {
    48 <= c as u32 <= 57
}

pub open spec fn digit_val(c: char) -> int {
    c as u32 - 48
}

pub open spec fn all_digits(s: Seq<char>) -> bool {
    forall|j: int| 0 <= j < s.len() ==> is_digit_char(#[trigger] s[j])
}

/// The number written by a digit string, most significant digit first.
pub open spec fn digits_val(s: Seq<char>) -> int
    decreases s.len(),
{
    if s.len() == 0 {
        0
    } else {
        digits_val(s.drop_last()) * 10 + digit_val(s.last())
    }
}

/// The value in price units of a fraction part: its first four digits,
/// padded with zeros to four places; further digits are beyond the price
/// resolution and are dropped.
pub open spec fn frac_units(s: Seq<char>) -> int {
    if s.len() >= 4 {
        digits_val(s.take(4))
    } else if s.len() == 3 {
        digits_val(s) * 10
    } else if s.len() == 2 {
        digits_val(s) * 100
    } else if s.len() == 1 {
        digits_val(s) * 1000
    } else {
        0
    }
}

/// How a raw price field reads as a number of price units: currency symbols
/// are removed and blank space stripped; what remains must be digits with at
/// most one decimal point and at least one digit, and must fit the price
/// type; anything else (a sign, letters, emptiness, overflow) is "absent".
pub open spec fn parse_price_spec(raw: Seq<char>) -> Option<u64> {
    let s = trim_spec(strip_dollars(raw));
    let dot = find_char(s, '.') as int;
    let ip = if dot < s.len() {
        s.take(dot)
    } else {
        s
    };
    let fp = if dot < s.len() {
        s.skip(dot + 1)
    } else {
        Seq::<char>::empty()
    };
    if ip.len() + fp.len() == 0 {
        None
    } else if !(all_digits(ip) && all_digits(fp)) {
        None
    } else {
        let v = digits_val(ip) * 10000 + frac_units(fp);
        if v > u64::MAX {
            None
        } else {
            Some(v as u64)
        }
    }
}

/// How one input line reads as a record: five tab-separated fields give
/// date, item name, category, place and price; a line with fewer fields is
/// skipped, further fields are ignored.
pub open spec fn record_of_line(line: Seq<char>) -> Option<ProductModel> {
    let fields = split_on(line, '\t');
    if fields.len() < 5 {
        None
    } else {
        Some(
            ProductModel {
                date: fields[0],
                product: fields[1],
                product_type: fields[2],
                place: fields[3],
                price: parse_price_spec(fields[4]),
            },
        )
    }
}

pub open spec fn records_of_lines(lines: Seq<Seq<char>>) -> Seq<ProductModel>
    decreases lines.len(),
{
    if lines.len() == 0 {
        Seq::empty()
    } else {
        match record_of_line(lines[0]) {
            Some(r) => seq![r] + records_of_lines(lines.skip(1)),
            None => records_of_lines(lines.skip(1)),
        }
    }
}

/// How a whole input text reads as records: one candidate record per line.
pub open spec fn parse_file_spec(s: Seq<char>) -> Seq<ProductModel> {
    records_of_lines(split_on(s, '\n'))
}

proof fn lemma_strip_dollars_push(s: Seq<char>, c: char)
    ensures
        strip_dollars(s.push(c)) == if c != '$' {
            strip_dollars(s).push(c)
        } else {
            strip_dollars(s)
        },
{
    reveal(Seq::filter);
    assert(s.push(c).drop_last() =~= s);
    assert(s.push(c).last() == c);
}

/// Leading blanks up to `lo`, and none at `lo` itself, pin down what
/// trimming from the start leaves.
proof fn lemma_trim_start_converse(s: Seq<char>, lo: int)
    requires
        0 <= lo <= s.len(),
        forall|k: int| 0 <= k < lo ==> is_space_char(#[trigger] s[k]),
        lo < s.len() ==> !is_space_char(s[lo]),
    ensures
        trim_start_spec(s) == s.skip(lo),
    decreases lo,
{
    if lo == 0 {
        assert(s.skip(0) =~= s);
    } else {
        lemma_trim_start_converse(s.skip(1), lo - 1);
        assert(s.skip(1).skip(lo - 1) =~= s.skip(lo));
    }
}

/// Trailing blanks from `hi` on, and none just before `hi`, pin down what
/// trimming from the end leaves.
proof fn lemma_trim_end_converse(s: Seq<char>, hi: int)
    requires
        0 <= hi <= s.len(),
        forall|k: int| hi <= k < s.len() ==> is_space_char(#[trigger] s[k]),
        hi > 0 ==> !is_space_char(s[hi - 1]),
    ensures
        trim_end_spec(s) == s.take(hi),
    decreases s.len(),
{
    if hi == s.len() {
        assert(s.take(hi) =~= s);
    } else {
        lemma_trim_end_converse(s.drop_last(), hi);
        assert(s.drop_last().take(hi) =~= s.take(hi));
    }
}

proof fn lemma_digits_val_nonneg(s: Seq<char>)
    requires
        all_digits(s),
    ensures
        digits_val(s) >= 0,
    decreases s.len(),
{
    if s.len() > 0 {
        assert(all_digits(s.drop_last()));
        lemma_digits_val_nonneg(s.drop_last());
        assert(is_digit_char(s.last()));
    }
}

/// Reading more digits never shrinks the number read so far.
proof fn lemma_digits_val_mono(s: Seq<char>, i: int)
    requires
        all_digits(s),
        0 <= i <= s.len(),
    ensures
        digits_val(s) >= digits_val(s.take(i)),
    decreases s.len() - i,
{
    if i < s.len() {
        assert(s.take(i + 1).drop_last() =~= s.take(i));
        assert(s.take(i + 1).last() == s[i]);
        assert(all_digits(s.take(i)));
        lemma_digits_val_nonneg(s.take(i));
        assert(is_digit_char(s[i]));
        lemma_digits_val_mono(s, i + 1);
    } else {
        assert(s.take(i) =~= s);
    }
}

proof fn lemma_digits_val_bound(s: Seq<char>)
    requires
        all_digits(s),
    ensures
        0 <= digits_val(s) < spec_pow10(s.len() as int),
    decreases s.len(),
{
    if s.len() > 0 {
        assert(all_digits(s.drop_last()));
        lemma_digits_val_bound(s.drop_last());
        assert(is_digit_char(s.last()));
    }
}

/// Comparing against a quotient decides whether the product fits: for a
/// positive `k`, `a <= x / k` exactly when `a * k <= x`.
proof fn lemma_le_div_iff(a: int, x: int, k: int)
    requires
        k > 0,
        a >= 0,
        x >= 0,
    ensures
        a <= x / k <==> a * k <= x,
{
    vstd::arithmetic::div_mod::lemma_fundamental_div_mod(x, k);
    vstd::arithmetic::div_mod::lemma_mod_bound(x, k);
    if a <= x / k {
        assert(a * k <= x) by (nonlinear_arith)
            requires
                a <= x / k,
                x == k * (x / k) + (x % k),
                0 <= x % k,
                k > 0,
                a >= 0,
        ;
    }
    if a * k <= x {
        assert(a <= x / k) by (nonlinear_arith)
            requires
                a * k <= x,
                x == k * (x / k) + (x % k),
                x % k < k,
                k > 0,
                a >= 0,
        ;
    }
}

fn is_space(c: char) -> (b: bool)
    ensures
        b == is_space_char(c),
{
    c == ' ' || c == '\t' || c == '\r' || c == '\n'
}

/// A position before which `d` does not occur, and at which `d` stands
/// unless it is the end, is exactly what `find_char` returns.
proof fn lemma_find_char_converse(s: Seq<char>, d: char, i: int)
    requires
        0 <= i <= s.len(),
        forall|k: int| 0 <= k < i ==> s[k] != d,
        i < s.len() ==> s[i] == d,
    ensures
        find_char(s, d) == i,
    decreases i,
{
    if i == 0 {
    } else {
        assert(s[0] != d);
        lemma_find_char_converse(s.skip(1), d, i - 1);
    }
}

/// Scans `s` from position `from` for the first occurrence of `d`.
#[verifier::loop_isolation(false)]
fn find_char_at(s: &str, from: usize, d: char) -> (i: usize)
    requires
        from <= s@.len(),
        s@.len() <= usize::MAX,
    ensures
        i as int == from + find_char(s@.skip(from as int), d),
        i <= s@.len(),
{
    let n = s.unicode_len();
    let mut j = from;
    while j < n
        invariant
            from <= j <= n,
            forall|k: int| from <= k < j ==> s@[k] != d,
        decreases n - j,
    {
        if s.get_char(j) == d {
            proof {
                lemma_find_char_converse(s@.skip(from as int), d, j - from);
            }
            return j;
        }
        j = j + 1;
    }
    proof {
        lemma_find_char_converse(s@.skip(from as int), d, n - from);
    }
    n
}

/// Reads a raw price field as a number of price units, as
/// `parse_price_spec` describes; anything unreadable is an absent price.
#[verifier::loop_isolation(false)]
#[verifier::rlimit(100)]
pub fn parse_price(raw: &str) -> (r: Option<u64>)
    ensures
        r == parse_price_spec(raw@),
{
    let n = raw.unicode_len();
    let mut cleaned: Vec<char> = Vec::new();
    let mut i: usize = 0;
    proof {
        assert(raw@.take(0) =~= Seq::<char>::empty());
        assert(cleaned@ =~= strip_dollars(raw@.take(0)));
    }
    while i < n
        invariant
            i <= n,
            n == raw@.len(),
            cleaned@ == strip_dollars(raw@.take(i as int)),
        decreases n - i,
    {
        let c = raw.get_char(i);
        proof {
            lemma_strip_dollars_push(raw@.take(i as int), c);
            assert(raw@.take(i + 1) =~= raw@.take(i as int).push(c));
        }
        if c != '$' {
            cleaned.push(c);
        }
        i = i + 1;
    }
    proof {
        assert(raw@.take(n as int) =~= raw@);
    }
    let ghost sv = cleaned@;
    let m = cleaned.len();
    // strip blank space from both ends
    let mut lo: usize = 0;
    while lo < m && is_space(cleaned[lo])
        invariant
            lo <= m,
            forall|k: int| 0 <= k < lo ==> is_space_char(#[trigger] sv[k]),
        decreases m - lo,
    {
        lo = lo + 1;
    }
    let mut hi: usize = m;
    while hi > lo && is_space(cleaned[hi - 1])
        invariant
            lo <= hi <= m,
            forall|k: int| hi <= k < m ==> is_space_char(#[trigger] sv[k]),
        decreases hi,
    {
        hi = hi - 1;
    }
    let ghost t = trim_spec(strip_dollars(raw@));
    proof {
        lemma_trim_start_converse(sv, lo as int);
        if hi > lo {
            assert(!is_space_char(sv[hi - 1]));
        }
        assert forall|k: int| hi - lo <= k < sv.skip(lo as int).len() implies is_space_char(
            #[trigger] sv.skip(lo as int)[k],
        ) by {
            assert(sv.skip(lo as int)[k] == sv[k + lo]);
        }
        lemma_trim_end_converse(sv.skip(lo as int), hi - lo);
        assert(t =~= sv.subrange(lo as int, hi as int));
    }
    // find the decimal point
    let mut dt: usize = hi;
    let mut k = lo;
    while k < hi
        invariant
            lo <= k <= hi <= m,
            dt == hi,
            forall|j: int| lo <= j < k ==> sv[j] != '.',
        decreases hi - k,
    {
        if cleaned[k] == '.' {
            dt = k;
            break ;
        }
        k = k + 1;
    }
    proof {
        assert forall|j: int| 0 <= j < dt - lo implies t[j] != '.' by {
            assert(t[j] == sv[j + lo]);
        }
        if dt < hi {
            assert(t[dt - lo] == sv[dt as int]);
        }
        lemma_find_char_converse(t, '.', dt - lo);
    }
    let ghost dot = find_char(t, '.') as int;
    let ghost ip = if dot < t.len() {
        t.take(dot)
    } else {
        t
    };
    let ghost fp = if dot < t.len() {
        t.skip(dot + 1)
    } else {
        Seq::<char>::empty()
    };
    proof {
        assert(ip =~= sv.subrange(lo as int, dt as int));
        if dt < hi {
            assert(fp =~= sv.subrange(dt + 1, hi as int));
        }
    }
    let fp_len: usize = if dt < hi {
        hi - dt - 1
    } else {
        0
    };
    proof {
        assert(ip.len() == dt - lo);
        assert(fp.len() == fp_len);
    }
    if dt == lo && fp_len == 0 {
        return None;
    }
    // the whole part, with its digits checked
    let mut acc: u64 = 0;
    let mut k = lo;
    while k < dt
        invariant
            lo <= k <= dt <= m,
            ip =~= sv.subrange(lo as int, dt as int),
            sv == cleaned@,
            forall|j: int| 0 <= j < k - lo ==> is_digit_char(#[trigger] ip[j]),
            acc as int == digits_val(ip.take(k - lo)),
        decreases dt - k,
    {
        let c = cleaned[k];
        let cu = c as u32;
        proof {
            assert(ip[k - lo] == sv[k as int]);
        }
        if !(48 <= cu && cu <= 57) {
            proof {
                assert(!is_digit_char(ip[k - lo]));
                assert(!all_digits(ip));
            }
            return None;
        }
        let dv = (cu - 48) as u64;
        proof {
            assert(ip.take(k - lo + 1).drop_last() =~= ip.take(k - lo));
            assert(ip.take(k - lo + 1).last() == ip[k - lo]);
            lemma_le_div_iff(acc as int, u64::MAX - dv, 10);
        }
        if acc > (u64::MAX - dv) / 10 {
            // the whole part alone no longer fits the price type
            proof {
                let pre = k - lo + 1;
                assert(digits_val(ip.take(pre)) == acc * 10 + dv > u64::MAX);
                if all_digits(ip) {
                    lemma_digits_val_mono(ip, pre);
                    lemma_digits_val_nonneg(ip);
                    assert(digits_val(ip) > u64::MAX);
                    assert(digits_val(ip) * 10000 >= digits_val(ip)) by (nonlinear_arith)
                        requires
                            digits_val(ip) >= 0,
                    ;
                    if all_digits(fp) {
                        lemma_digits_val_bound(fp);
                        if fp.len() >= 4 {
                            assert(all_digits(fp.take(4)));
                            lemma_digits_val_nonneg(fp.take(4));
                        } else {
                            lemma_digits_val_nonneg(fp);
                        }
                        assert(frac_units(fp) >= 0);
                    }
                }
            }
            return None;
        }
        acc = acc * 10 + dv;
        k = k + 1;
    }
    proof {
        assert(ip.take(dt - lo) =~= ip);
        assert(all_digits(ip));
        assert(acc as int == digits_val(ip));
    }
    // the fraction part: checked in full, read to four places
    let mut fv: u64 = 0;
    let mut cnt: usize = 0;
    if dt < hi {
        let mut k = dt + 1;
        while k < hi
            invariant
                dt + 1 <= k <= hi <= m,
                fp =~= sv.subrange(dt + 1, hi as int),
                sv == cleaned@,
                cnt == if k - dt - 1 <= 4 {
                    k - dt - 1
                } else {
                    4int
                },
                forall|j: int| 0 <= j < k - dt - 1 ==> is_digit_char(#[trigger] fp[j]),
                fv as int == digits_val(fp.take(cnt as int)),
                (fv as int) < spec_pow10(cnt as int),
            decreases hi - k,
        {
            let c = cleaned[k];
            let cu = c as u32;
            proof {
                assert(fp[k - dt - 1] == sv[k as int]);
            }
            if !(48 <= cu && cu <= 57) {
                proof {
                    assert(!is_digit_char(fp[k - dt - 1]));
                    assert(!all_digits(fp));
                }
                return None;
            }
            let dv = (cu - 48) as u64;
            if cnt < 4 {
                proof {
                    assert(fp.take(cnt + 1).drop_last() =~= fp.take(cnt as int));
                    assert(fp.take(cnt + 1).last() == fp[cnt as int]);
                    assert(fp[cnt as int] == fp[k - dt - 1]);
                    assert(spec_pow10(0) == 1);
                    assert(spec_pow10(1) == 10);
                    assert(spec_pow10(2) == 100);
                    assert(spec_pow10(3) == 1000);
                    assert(spec_pow10(4) == 10000);
                }
                fv = fv * 10 + dv;
                cnt = cnt + 1;
            }
            k = k + 1;
        }
        proof {
            assert(all_digits(fp));
        }
    } else {
        proof {
            assert(fp.take(0) =~= fp);
            assert(all_digits(fp));
        }
    }
    // scale a short fraction out to four places
    proof {
        assert(spec_pow10(0) == 1);
        assert(spec_pow10(1) == 10);
        assert(spec_pow10(2) == 100);
        assert(spec_pow10(3) == 1000);
        assert(spec_pow10(4) == 10000);
        if fp_len >= 4 {
            assert(cnt == 4);
        } else {
            assert(cnt == fp_len);
            assert(fp.take(cnt as int) =~= fp);
        }
    }
    let frac: u64 = if fp_len >= 4 {
        fv
    } else if fp_len == 3 {
        fv * 10
    } else if fp_len == 2 {
        fv * 100
    } else if fp_len == 1 {
        fv * 1000
    } else {
        0
    };
    proof {
        assert(frac as int == frac_units(fp));
        assert(frac <= 9999);
        lemma_le_div_iff(acc as int, u64::MAX - frac, 10000);
    }
    if acc > (u64::MAX - frac) / 10000 {
        return None;
    }
    Some(acc * 10000 + frac)
}

/// Splits `s` at every occurrence of `d`, as `split_on` describes.
#[verifier::loop_isolation(false)]
pub fn split_str(s: &str, d: char) -> (v: Vec<String>)
    ensures
        v.deep_view() == split_on(s@, d),
{
    let n = s.unicode_len();
    let mut v: Vec<String> = Vec::new();
    let mut pos: usize = 0;
    proof {
        assert(s@.skip(0) =~= s@);
        assert(v.deep_view() + split_on(s@, d) =~= split_on(s@, d));
    }
    loop
        invariant
            pos <= n,
            n == s@.len(),
            v.deep_view() + split_on(s@.skip(pos as int), d) =~= split_on(s@, d),
        decreases n - pos,
    {
        let ghost rest = s@.skip(pos as int);
        let i = find_char_at(s, pos, d);
        let piece = s.substring_char(pos, i).to_owned();
        proof {
            assert(piece@ =~= rest.take(i - pos));
        }
        if i < n {
            v.push(piece);
            proof {
                assert(rest.skip(i - pos + 1) =~= s@.skip(i + 1));
                assert(split_on(rest, d) == seq![rest.take(i - pos)] + split_on(
                    s@.skip(i + 1),
                    d,
                ));
                assert(v.deep_view() + split_on(s@.skip(i + 1), d) =~= split_on(s@, d));
            }
            pos = i + 1;
        } else {
            proof {
                assert(piece@ =~= rest);
                assert(split_on(rest, d) == seq![rest]);
            }
            v.push(piece);
            proof {
                assert(v.deep_view() =~= split_on(s@, d));
            }
            return v;
        }
    }
}

/// One more line at the end contributes its record at the end, or nothing.
proof fn lemma_records_push(lines: Seq<Seq<char>>, x: Seq<char>)
    ensures
        records_of_lines(lines.push(x)) == records_of_lines(lines) + (match record_of_line(x) {
            Some(r) => seq![r],
            None => Seq::<ProductModel>::empty(),
        }),
    decreases lines.len(),
{
    let tail = match record_of_line(x) {
        Some(r) => seq![r],
        None => Seq::<ProductModel>::empty(),
    };
    if lines.len() == 0 {
        assert(lines.push(x)[0] == x);
        assert(lines.push(x).skip(1) =~= Seq::<Seq<char>>::empty());
        assert(records_of_lines(lines.push(x).skip(1)) =~= Seq::<ProductModel>::empty());
        assert(records_of_lines(lines.push(x)) =~= records_of_lines(lines) + tail);
    } else {
        lemma_records_push(lines.skip(1), x);
        let rest = records_of_lines(lines.skip(1));
        assert(lines.push(x).skip(1) =~= lines.skip(1).push(x));
        assert(records_of_lines(lines.push(x).skip(1)) == rest + tail);
        assert(lines.push(x)[0] == lines[0]);
        match record_of_line(lines[0]) {
            Some(r) => {
                assert(records_of_lines(lines.push(x)) == seq![r] + (rest + tail));
                assert(records_of_lines(lines) == seq![r] + rest);
                assert(seq![r] + (rest + tail) =~= (seq![r] + rest) + tail);
            },
            None => {
                assert(records_of_lines(lines.push(x)) == rest + tail);
                assert(records_of_lines(lines) == rest);
            },
        }
    }
}

/// Reads a whole input text as records, as `parse_file_spec` describes: one
/// line per record, lines with fewer than five tab-separated fields skipped.
#[verifier::loop_isolation(false)]
pub fn read_file(file: &str) -> (r: Vec<Product>)
    ensures
        r.deep_view() == parse_file_spec(file@),
{
    let lines = split_str(file, '\n');
    let ghost lv = lines.deep_view();
    let mut out: Vec<Product> = Vec::new();
    let n = lines.len();
    let mut i: usize = 0;
    proof {
        assert(lv.take(0) =~= Seq::<Seq<char>>::empty());
        assert(out.deep_view() =~= records_of_lines(lv.take(0)));
    }
    while i < n
        invariant
            i <= n,
            n == lv.len(),
            lines.deep_view() == lv,
            lv == split_on(file@, '\n'),
            out.deep_view() == records_of_lines(lv.take(i as int)),
        decreases n - i,
    {
        proof {
            lemma_records_push(lv.take(i as int), lv[i as int]);
            assert(lv.take(i + 1) =~= lv.take(i as int).push(lv[i as int]));
        }
        let fields = split_str(lines[i].as_str(), '\t');
        proof {
            assert(fields.deep_view() == split_on(lv[i as int], '\t'));
        }
        if fields.len() >= 5 {
            let price = parse_price(fields[4].as_str());
            let p = Product {
                date: fields[0].clone(),
                product: fields[1].clone(),
                product_type: fields[2].clone(),
                place: fields[3].clone(),
                price,
            };
            proof {
                assert(record_of_line(lv[i as int]) == Some(p.deep_view()));
            }
            out.push(p);
            proof {
                assert(out.deep_view() =~= records_of_lines(lv.take(i + 1)));
            }
        } else {
            proof {
                assert(record_of_line(lv[i as int]) is None);
                assert(out.deep_view() =~= records_of_lines(lv.take(i + 1)));
            }
        }
        i = i + 1;
    }
    proof {
        assert(lv.take(n as int) =~= lv);
    }
    out
}

} // verus!
