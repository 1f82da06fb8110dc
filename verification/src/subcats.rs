use vstd::prelude::*;

verus! {

// ---------------------------------------------------------------------------
// The persisted textual encoding of a category's subcategory list.
//
// Each item is written as its character count in decimal (without leading
// zeros), a colon, and the characters themselves; the items follow one
// another with nothing in between. The empty list is the empty text. A reader
// that meets anything else - a missing count, a leading zero, a missing
// colon, or a count that overruns the text - treats the whole column as
// malformed, and the read degrades to the empty list rather than failing.
// ---------------------------------------------------------------------------

/// The ten decimal digit characters.
pub open spec fn is_digit(c: char) -> bool {
    c == '0' || c == '1' || c == '2' || c == '3' || c == '4' || c == '5' || c == '6' || c == '7'
        || c == '8' || c == '9'
}

/// The numeric value of a digit character (zero on anything else).
pub open spec fn digit_val(c: char) -> nat {
    if c == '1' {
        1
    } else if c == '2' {
        2
    } else if c == '3' {
        3
    } else if c == '4' {
        4
    } else if c == '5' {
        5
    } else if c == '6' {
        6
    } else if c == '7' {
        7
    } else if c == '8' {
        8
    } else if c == '9' {
        9
    } else {
        0
    }
}

/// The digit character of a value below ten.
pub open spec fn digit_char(d: nat) -> char {
    if d == 1 {
        '1'
    } else if d == 2 {
        '2'
    } else if d == 3 {
        '3'
    } else if d == 4 {
        '4'
    } else if d == 5 {
        '5'
    } else if d == 6 {
        '6'
    } else if d == 7 {
        '7'
    } else if d == 8 {
        '8'
    } else if d == 9 {
        '9'
    } else {
        '0'
    }
}

/// The decimal digits of a number, most significant first, without leading
/// zeros (zero itself is the single digit `0`).
pub open spec fn dec_digits(n: nat) -> Seq<char>
    decreases n,
{
    if n < 10 {
        seq![digit_char(n)]
    } else {
        dec_digits(n / 10).push(digit_char(n % 10))
    }
}

/// The value of a digit sequence, most significant first.
pub open spec fn digits_value(ds: Seq<char>) -> nat
    decreases ds.len(),
{
    if ds.len() == 0 {
        0
    } else {
        digits_value(ds.drop_last()) * 10 + digit_val(ds.last())
    }
}

/// The length of the leading run of digit characters.
pub open spec fn digit_run(s: Seq<char>) -> nat
    decreases s.len(),
{
    if s.len() == 0 || !is_digit(s[0]) {
        0
    } else {
        1 + digit_run(s.skip(1))
    }
}

/// Powers of ten.
pub open spec fn pow10(k: nat) -> nat
    decreases k,
{
    if k == 0 {
        1
    } else {
        10 * pow10((k - 1) as nat)
    }
}

/// One encoded item: the character count in decimal, a colon, the characters.
pub open spec fn encode_item(s: Seq<char>) -> Seq<char> {
    dec_digits(s.len()) + seq![':'] + s
}

/// The whole encoded list: the items' encodings, one after another.
pub open spec fn encode_subcats(l: Seq<Seq<char>>) -> Seq<char>
    decreases l.len(),
{
    if l.len() == 0 {
        Seq::empty()
    } else {
        encode_item(l[0]) + encode_subcats(l.skip(1))
    }
}

/// The decoder: `Some` of the item list on a well-formed text, `None` on any
/// malformation.
pub open spec fn decode_subcats(s: Seq<char>) -> Option<Seq<Seq<char>>>
    decreases s.len(),
{
    if s.len() == 0 {
        Some(Seq::empty())
    } else {
        let k = digit_run(s) as int;
        if k == 0 {
            None
        } else if k > 1 && s[0] == '0' {
            None
        } else if k >= s.len() {
            None
        } else if s[k] != ':' {
            None
        } else {
            let m = digits_value(s.take(k)) as int;
            if s.len() < k + 1 + m {
                None
            } else {
                match decode_subcats(s.skip(k + 1 + m)) {
                    Some(t) => Some(seq![s.subrange(k + 1, k + 1 + m)] + t),
                    None => None,
                }
            }
        }
    }
}

/// What a read returns for a stored column: the decoded list, or the empty
/// list where the text is malformed.
pub open spec fn decode_or_empty(s: Seq<char>) -> Seq<Seq<char>> {
    match decode_subcats(s) {
        Some(l) => l,
        None => Seq::empty(),
    }
}

/// The views of a sequence of owned strings.
pub open spec fn str_views(v: Seq<String>) -> Seq<Seq<char>> {
    v.map_values(|s: String| s@)
}

/// The digits of a number are digit characters, there is at least one, and
/// the first is zero only for the number zero itself.
pub proof fn lemma_dec_digits_shape(n: nat)
    ensures
        dec_digits(n).len() >= 1,
        forall|i: int| 0 <= i < dec_digits(n).len() ==> is_digit(#[trigger] dec_digits(n)[i]),
        n >= 1 ==> dec_digits(n)[0] != '0',
        n >= 10 ==> dec_digits(n).len() >= 2,
    decreases n,
{
    if n >= 10 {
        lemma_dec_digits_shape(n / 10);
    }
}

/// Encoding distributes over list concatenation.
pub proof fn lemma_encode_subcats_concat(a: Seq<Seq<char>>, b: Seq<Seq<char>>)
    ensures
        encode_subcats(a + b) == encode_subcats(a) + encode_subcats(b),
    decreases a.len(),
{
    if a.len() == 0 {
        assert(a + b =~= b);
        assert(encode_subcats(a) + encode_subcats(b) =~= encode_subcats(b));
    } else {
        lemma_encode_subcats_concat(a.skip(1), b);
        assert((a + b).skip(1) =~= a.skip(1) + b);
        assert((a + b)[0] == a[0]);
        assert(encode_item(a[0]) + (encode_subcats(a.skip(1)) + encode_subcats(b)) =~= (encode_item(
            a[0],
        ) + encode_subcats(a.skip(1))) + encode_subcats(b));
    }
}

/// The leading digit run of digits followed by a non-digit is exactly the
/// digits.
pub proof fn lemma_digit_run_concat(d: Seq<char>, rest: Seq<char>)
    requires
        forall|i: int| 0 <= i < d.len() ==> is_digit(#[trigger] d[i]),
        rest.len() == 0 || !is_digit(rest[0]),
    ensures
        digit_run(d + rest) == d.len(),
    decreases d.len(),
{
    if d.len() == 0 {
        assert(d + rest =~= rest);
    } else {
        lemma_digit_run_concat(d.skip(1), rest);
        assert((d + rest).skip(1) =~= d.skip(1) + rest);
        assert(is_digit((d + rest)[0]));
    }
}

/// Reading back the digits of a number yields the number.
pub proof fn lemma_digits_value_of_dec(n: nat)
    ensures
        digits_value(dec_digits(n)) == n,
    decreases n,
{
    reveal_with_fuel(digits_value, 3);
    reveal_with_fuel(dec_digits, 2);
    if n < 10 {
        assert(dec_digits(n).drop_last() =~= Seq::<char>::empty());
        assert(digit_val(digit_char(n)) == n);
    } else {
        lemma_digits_value_of_dec(n / 10);
        assert(dec_digits(n).drop_last() =~= dec_digits(n / 10));
        assert(digit_val(digit_char(n % 10)) == n % 10);
        assert(digits_value(dec_digits(n)) == (n / 10) * 10 + n % 10);
    }
}

/// A digit sequence without a leading zero is at least its positional floor.
pub proof fn lemma_digits_value_lower_bound(ds: Seq<char>)
    requires
        ds.len() >= 1,
        forall|i: int| 0 <= i < ds.len() ==> is_digit(#[trigger] ds[i]),
        ds[0] != '0',
    ensures
        digits_value(ds) >= pow10((ds.len() - 1) as nat),
    decreases ds.len(),
{
    if ds.len() == 1 {
    } else {
        lemma_digits_value_lower_bound(ds.drop_last());
    }
}

/// Decoding inverts encoding: the round trip over the whole list.
pub proof fn lemma_decode_encode(l: Seq<Seq<char>>)
    ensures
        decode_subcats(encode_subcats(l)) == Some(l),
    decreases l.len(),
{
    if l.len() == 0 {
        assert(decode_subcats(encode_subcats(l)) == Some(Seq::<Seq<char>>::empty()));
        assert(l =~= Seq::<Seq<char>>::empty());
    } else {
        let body = l[0];
        let d = dec_digits(body.len());
        let rest = encode_subcats(l.skip(1));
        let s = encode_subcats(l);
        lemma_dec_digits_shape(body.len());
        assert(s =~= d + (seq![':'] + body + rest));
        lemma_digit_run_concat(d, seq![':'] + body + rest);
        assert((seq![':'] + body + rest)[0] == ':');
        let k = d.len() as int;
        assert(digit_run(s) == k);
        assert(s.len() >= k + 1);
        assert(s[k] == ':');
        assert(s.take(k) =~= d);
        lemma_digits_value_of_dec(body.len());
        let m = body.len() as int;
        assert(digits_value(s.take(k)) == m);
        // no leading zero where the count has more than one digit
        if k > 1 {
            assert(body.len() >= 10) by {
                if body.len() < 10 {
                    assert(d.len() == 1);
                }
            }
            assert(s[0] == d[0]);
            assert(d[0] != '0');
        }
        assert(s.len() >= k + 1 + m);
        assert(s.subrange(k + 1, k + 1 + m) =~= body);
        assert(s.skip(k + 1 + m) =~= rest);
        lemma_decode_encode(l.skip(1));
        assert(decode_subcats(rest) == Some(l.skip(1)));
        assert(seq![body] + l.skip(1) =~= l);
    }
}

/// A digit character, as a one-character piece of text.
fn digit_str(d: usize) -> (r: &'static str)
    requires
        d < 10,
    ensures
        r@ =~= seq![digit_char(d as nat)],
{
    proof {
        reveal_strlit("0");
        reveal_strlit("1");
        reveal_strlit("2");
        reveal_strlit("3");
        reveal_strlit("4");
        reveal_strlit("5");
        reveal_strlit("6");
        reveal_strlit("7");
        reveal_strlit("8");
        reveal_strlit("9");
    }
    match d {
        0 => "0",
        1 => "1",
        2 => "2",
        3 => "3",
        4 => "4",
        5 => "5",
        6 => "6",
        7 => "7",
        8 => "8",
        _ => "9",
    }
}

/// Appends the decimal digits of a number.
fn append_decimal(out: &mut String, n: usize)
    ensures
        final(out)@ == old(out)@ + dec_digits(n as nat),
    decreases n,
{
    if n < 10 {
        out.append(digit_str(n));
    } else {
        append_decimal(out, n / 10);
        out.append(digit_str(n % 10));
        proof {
            assert(old(out)@ + dec_digits((n / 10) as nat) + seq![digit_char((n % 10) as nat)]
                =~= old(out)@ + dec_digits(n as nat));
        }
    }
}

/// Encodes a subcategory list into its persisted text.
pub fn encode_subcategories(items: &Vec<String>) -> (r: String)
    ensures
        r@ == encode_subcats(str_views(items@)),
{
    let mut out = String::new();
    let mut i: usize = 0;
    while i < items.len()
        invariant
            i <= items@.len(),
            out@ == encode_subcats(str_views(items@.take(i as int))),
        decreases items@.len() - i,
    {
        let ghost pre = out@;
        let item = &items[i];
        append_decimal(&mut out, item.as_str().unicode_len());
        out.append(":");
        out.append(item.as_str());
        proof {
            reveal_strlit(":");
            assert(out@ =~= pre + encode_item(item@));
            assert(str_views(items@.take(i as int + 1)) =~= str_views(items@.take(i as int)).push(
                item@,
            ));
            lemma_encode_subcats_concat(str_views(items@.take(i as int)), seq![item@]);
            assert(str_views(items@.take(i as int)).push(item@) =~= str_views(
                items@.take(i as int),
            ) + seq![item@]);
            assert(encode_subcats(seq![item@]) =~= encode_item(item@)) by {
                reveal_with_fuel(encode_subcats, 3);
                assert(seq![item@].skip(1) =~= Seq::<Seq<char>>::empty());
                assert(encode_item(item@) + Seq::<char>::empty() =~= encode_item(item@));
            }
        }
        i = i + 1;
    }
    proof {
        assert(items@.take(items@.len() as int) =~= items@);
    }
    out
}

/// Whether a character is a decimal digit.
fn is_digit_exec(c: char) -> (r: bool)
    ensures
        r == is_digit(c),
{
    c == '0' || c == '1' || c == '2' || c == '3' || c == '4' || c == '5' || c == '6' || c == '7'
        || c == '8' || c == '9'
}

/// The numeric value of a digit character.
fn digit_val_exec(c: char) -> (r: u128)
    requires
        is_digit(c),
    ensures
        r as nat == digit_val(c),
{
    if c == '1' {
        1
    } else if c == '2' {
        2
    } else if c == '3' {
        3
    } else if c == '4' {
        4
    } else if c == '5' {
        5
    } else if c == '6' {
        6
    } else if c == '7' {
        7
    } else if c == '8' {
        8
    } else if c == '9' {
        9
    } else {
        0
    }
}

/// Decodes a persisted subcategory column. A malformed text decodes to the
/// empty list: a read never fails on a minor encoding defect.
#[verifier::loop_isolation(false)]
#[verifier::rlimit(100)]
pub fn decode_subcategories(text: &String) -> (r: Vec<String>)
    ensures
        str_views(r@) == decode_or_empty(text@),
{
    let s = text.as_str();
    let n = s.unicode_len();
    let mut out: Vec<String> = Vec::new();
    let mut pos: usize = 0;
    proof {
        assert(s@.skip(0) =~= s@);
        assert(str_views(out@) =~= Seq::<Seq<char>>::empty());
        match decode_subcats(s@) {
            Some(t) => {
                assert(Seq::<Seq<char>>::empty() + t =~= t);
            },
            None => {},
        }
    }
    while pos < n
        invariant
            pos <= n,
            n == s@.len(),
            s@ == text@,
            decode_subcats(s@.skip(pos as int)) is Some ==> decode_subcats(s@) == Some(
                str_views(out@) + decode_subcats(s@.skip(pos as int)).unwrap(),
            ),
            decode_subcats(s@.skip(pos as int)) is None ==> decode_subcats(s@) is None,
        decreases n - pos,
    {
        let ghost suffix = s@.skip(pos as int);
        // measure the digit run of the count
        let mut k: usize = 0;
        while pos + k < n && is_digit_exec(s.get_char(pos + k))
            invariant
                pos + k <= n,
                n == s@.len(),
                forall|j: int| 0 <= j < k ==> is_digit(#[trigger] s@[pos + j]),
            decreases n - pos - k,
        {
            k = k + 1;
        }
        proof {
            assert(suffix.take(k as int) =~= s@.subrange(pos as int, pos + k));
            assert forall|j: int|
                0 <= j < k implies is_digit(#[trigger] suffix.take(k as int)[j]) by {
                assert(suffix.take(k as int)[j] == s@[pos + j]);
            }
            assert(suffix.skip(k as int) =~= s@.skip(pos + k));
            if pos + k < n {
                assert(suffix[k as int] == s@[pos + k]);
                assert(!is_digit(suffix[k as int]));
            }
            lemma_digit_run_concat(suffix.take(k as int), suffix.skip(k as int));
            assert(suffix.take(k as int) + suffix.skip(k as int) =~= suffix);
            assert(digit_run(suffix) == k);
        }
        if k == 0 {
            return Vec::new();
        }
        if k > 1 && s.get_char(pos) == '0' {
            return Vec::new();
        }
        if pos + k >= n {
            return Vec::new();
        }
        if s.get_char(pos + k) != ':' {
            return Vec::new();
        }
        if k > 20 {
            // the count is astronomically large: it cannot fit the text
            proof {
                lemma_digits_value_lower_bound(suffix.take(k as int));
                assert(pow10((k - 1) as nat) >= pow10(20)) by {
                    lemma_pow10_monotone(20, (k - 1) as nat);
                }
                assert(pow10(20) > usize::MAX as nat) by {
                    reveal_with_fuel(pow10, 21);
                }
            }
            return Vec::new();
        }
        // read the count; at most twenty digits, so it fits well within u128
        let mut val: u128 = 0;
        let mut j: usize = 0;
        while j < k
            invariant
                j <= k,
                k <= 20,
                pos + k < n,
                n == s@.len(),
                val as nat == digits_value(s@.subrange(pos as int, pos + j)),
                (val as nat) < pow10(j as nat),
            decreases k - j,
        {
            proof {
                assert(s@.subrange(pos as int, pos + j + 1).drop_last() =~= s@.subrange(
                    pos as int,
                    pos + j,
                ));
                assert(pow10((j + 1) as nat) == 10 * pow10(j as nat));
                assert(pow10(20) >= pow10((j + 1) as nat)) by {
                    lemma_pow10_monotone((j + 1) as nat, 20);
                }
                assert(pow10(20) < u128::MAX as nat) by {
                    reveal_with_fuel(pow10, 21);
                }
                assert(is_digit(s@[pos + j]));
            }
            val = val * 10 + digit_val_exec(s.get_char(pos + j));
            j = j + 1;
        }
        proof {
            assert(s@.subrange(pos as int, pos + k) =~= suffix.take(k as int));
        }
        let remaining = n - pos - k - 1;
        if val > remaining as u128 {
            return Vec::new();
        }
        let m = val as usize;
        let item = s.substring_char(pos + k + 1, pos + k + 1 + m);
        let ghost oldout = out@;
        let ghost oldpos = pos as int;
        out.push(item.to_owned());
        pos = pos + k + 1 + m;
        proof {
            assert(suffix[k as int] == ':');
            assert(suffix.len() >= k + 1 + m);
            assert(suffix.subrange(k as int + 1, k as int + 1 + m) =~= s@.subrange(
                oldpos + k + 1,
                oldpos + k + 1 + m,
            ));
            assert(item@ == suffix.subrange(k as int + 1, k as int + 1 + m));
            assert(suffix.skip(k as int + 1 + m) =~= s@.skip(pos as int));
            assert(str_views(out@) =~= str_views(oldout).push(item@));
            match decode_subcats(s@.skip(pos as int)) {
                Some(t) => {
                    assert(decode_subcats(suffix) == Some(seq![item@] + t));
                    assert(str_views(oldout) + (seq![item@] + t) =~= str_views(oldout).push(item@)
                        + t);
                },
                None => {
                    assert(decode_subcats(suffix) is None);
                },
            }
        }
    }
    proof {
        assert(s@.skip(pos as int) =~= Seq::<char>::empty());
        assert(decode_subcats(s@.skip(pos as int)) == Some(Seq::<Seq<char>>::empty()));
        assert(str_views(out@) + Seq::<Seq<char>>::empty() =~= str_views(out@));
    }
    out
}

/// Powers of ten grow with the exponent.
pub proof fn lemma_pow10_monotone(a: nat, b: nat)
    requires
        a <= b,
    ensures
        pow10(a) <= pow10(b),
    decreases b,
{
    if a < b {
        lemma_pow10_monotone(a, (b - 1) as nat);
        assert(pow10(b) == 10 * pow10((b - 1) as nat));
        assert(pow10((b - 1) as nat) >= 1) by {
            lemma_pow10_positive((b - 1) as nat);
        }
    }
}

/// Powers of ten are positive.
pub proof fn lemma_pow10_positive(k: nat)
    ensures
        pow10(k) >= 1,
    decreases k,
{
    if k > 0 {
        lemma_pow10_positive((k - 1) as nat);
    }
}

} // verus!
