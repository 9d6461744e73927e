use vstd::prelude::*;

verus! {

// ---------------------------------------------------------------------------
// Digits and decimal numbers
// ---------------------------------------------------------------------------

/// An ASCII decimal digit.
pub open spec fn is_digit(c: char) -> bool {
    '0' <= c && c <= '9'
}

/// The value of a decimal digit character.
pub open spec fn digit_value(c: char) -> nat {
    ((c as int) - ('0' as int)) as nat
}

/// The character of a decimal digit.
pub open spec fn digit_char(d: nat) -> char {
    ((d as int) + ('0' as int)) as char
}

/// Every character of the text is a decimal digit.
pub open spec fn all_digits(s: Seq<char>) -> bool {
    forall|i: int| 0 <= i < s.len() ==> is_digit(#[trigger] s[i])
}

/// The number that a text of decimal digits writes (the empty text writes 0).
pub open spec fn digits_value(s: Seq<char>) -> nat
    decreases s.len(),
{
    if s.len() == 0 {
        0
    } else {
        digits_value(s.drop_last()) * 10 + digit_value(s.last())
    }
}

/// What `str::parse::<u32>` gives for a text: an optional leading `+`, then
/// one or more decimal digits whose value fits in 32 bits.
pub open spec fn parse_u32_text(s: Seq<char>) -> Option<u32> {
    let body = if s.len() > 0 && s[0] == '+' {
        s.drop_first()
    } else {
        s
    };
    if body.len() == 0 || !all_digits(body) || digits_value(body) > u32::MAX {
        None
    } else {
        Some(digits_value(body) as u32)
    }
}

/// The decimal numeral of a number, without leading zeros.
pub open spec fn decimal(n: nat) -> Seq<char>
    decreases n,
{
    if n < 10 {
        seq![digit_char(n)]
    } else {
        decimal(n / 10).push(digit_char(n % 10))
    }
}

/// The numeral padded with zeros to at least two digits (`{:02}`).
pub open spec fn two_digits(n: nat) -> Seq<char> {
    if n < 10 {
        seq!['0', digit_char(n)]
    } else {
        decimal(n)
    }
}

// ---------------------------------------------------------------------------
// Clock times
// ---------------------------------------------------------------------------

/// The hour on a twelve-hour dial (0 and 12 both show as 12).
pub open spec fn twelve_hour(h: nat) -> nat {
    if h % 12 == 0 {
        12
    } else {
        h % 12
    }
}

/// `hh:mm` followed by `am` before noon and `pm` from noon on.
pub open spec fn clock_text(h: nat, m: nat) -> Seq<char> {
    two_digits(twelve_hour(h)) + seq![':'] + two_digits(m) + (if h < 12 {
        seq!['a', 'm']
    } else {
        seq!['p', 'm']
    })
}

/// The text ends with the two characters `a` then `b`.
pub open spec fn ends_with_pair(s: Seq<char>, a: char, b: char) -> bool {
    s.len() >= 2 && s[s.len() - 2] == a && s[s.len() - 1] == b
}

/// The pieces of a text between its colons, as `str::split(":")` yields them.
pub open spec fn split_colons(s: Seq<char>) -> Seq<Seq<char>>
    decreases s.len(),
{
    if s.len() == 0 {
        seq![Seq::<char>::empty()]
    } else {
        let p = split_colons(s.drop_last());
        if s.last() == ':' {
            p.push(Seq::<char>::empty())
        } else {
            p.update(p.len() - 1, p.last().push(s.last()))
        }
    }
}

/// The text without the `a`, `p` and `m` characters at its end.
pub open spec fn trim_end_apm(s: Seq<char>) -> Seq<char>
    decreases s.len(),
{
    if s.len() > 0 && (s.last() == 'a' || s.last() == 'p' || s.last() == 'm') {
        trim_end_apm(s.drop_last())
    } else {
        s
    }
}

/// A twelve-hour reading turned to the twenty-four-hour clock.
pub open spec fn to_24_hour(h: nat, pm: bool) -> nat {
    if pm {
        if h != 12 {
            h + 12
        } else {
            h
        }
    } else {
        h % 12
    }
}

/// What a typed time such as `1:30pm` stands for, as (hour, minute) on the
/// twenty-four-hour clock.
///
/// The text must end in `am` or `pm` and hold exactly one colon; the part
/// before the colon is the hour (1 to 12), the part after it, with its
/// trailing `a`, `p` and `m` letters removed, is the minute (at most 59).
pub open spec fn time_of_text(s: Seq<char>) -> Option<(u32, u32)> {
    let pm = ends_with_pair(s, 'p', 'm');
    if !(ends_with_pair(s, 'a', 'm') || pm) {
        None
    } else {
        let parts = split_colons(s);
        if parts.len() != 2 {
            None
        } else {
            match (parse_u32_text(parts[0]), parse_u32_text(trim_end_apm(parts[1]))) {
                (Some(h), Some(m)) => {
                    if h < 1 || h > 12 || m > 59 {
                        None
                    } else {
                        Some((to_24_hour(h as nat, pm) as u32, m))
                    }
                },
                _ => None,
            }
        }
    }
}

// ---------------------------------------------------------------------------
// Executable text handling
// ---------------------------------------------------------------------------

/// The characters of a text, one by one.
pub fn chars_of(s: &str) -> (r: Vec<char>)
    ensures
        r@ == s@,
{
    let n = s.unicode_len();
    let mut out: Vec<char> = Vec::new();
    let mut i: usize = 0;
    while i < n
        invariant
            n == s@.len(),
            i <= n,
            out@ == s@.subrange(0, i as int),
        decreases n - i,
    {
        let c = s.get_char(i);
        out.push(c);
        i = i + 1;
        assert(out@ =~= s@.subrange(0, i as int));
    }
    assert(out@ =~= s@);
    out
}

/// A larger text of digits never writes a smaller number than its prefix.
proof fn lemma_digits_value_prefix(s: Seq<char>, j: int)
    requires
        all_digits(s),
        0 <= j <= s.len(),
    ensures
        digits_value(s.subrange(0, j)) <= digits_value(s),
    decreases s.len(),
{
    if j < s.len() {
        assert(s.drop_last().subrange(0, j) =~= s.subrange(0, j));
        lemma_digits_value_prefix(s.drop_last(), j);
    } else {
        assert(s.subrange(0, j) =~= s);
    }
}

/// Parses the characters `chars[lo..hi]` as `str::parse::<u32>` does.
fn parse_u32_range(chars: &Vec<char>, lo: usize, hi: usize) -> (r: Option<u32>)
    requires
        lo <= hi <= chars@.len(),
    ensures
        r == parse_u32_text(chars@.subrange(lo as int, hi as int)),
{
    let ghost s = chars@.subrange(lo as int, hi as int);
    let mut start = lo;
    if lo < hi && chars[lo] == '+' {
        start = lo + 1;
    }
    let ghost body = chars@.subrange(start as int, hi as int);
    assert(body =~= (if s.len() > 0 && s[0] == '+' { s.drop_first() } else { s }));
    assert(parse_u32_text(s) == (if body.len() == 0 || !all_digits(body) || digits_value(body)
        > u32::MAX {
        None
    } else {
        Some(digits_value(body) as u32)
    }));
    if start == hi {
        return None;
    }
    let mut value: u64 = 0;
    let mut i = start;
    while i < hi
        invariant
            lo <= start <= i <= hi <= chars@.len(),
            body == chars@.subrange(start as int, hi as int),
            parse_u32_text(chars@.subrange(lo as int, hi as int)) == (if body.len() == 0
                || !all_digits(body) || digits_value(body) > u32::MAX {
                None
            } else {
                Some(digits_value(body) as u32)
            }),
            all_digits(chars@.subrange(start as int, i as int)),
            value == digits_value(chars@.subrange(start as int, i as int)),
            value <= u32::MAX,
        decreases hi - i,
    {
        let c = chars[i];
        let ghost prev = chars@.subrange(start as int, i as int);
        let ghost next = chars@.subrange(start as int, i + 1);
        assert(next.drop_last() =~= prev);
        assert(next.last() == c);
        if !('0' <= c && c <= '9') {
            assert(body[i - start] == c);
            assert(!is_digit(body[i - start]));
            assert(!all_digits(body));
            return None;
        }
        let d = (c as u32) - 48;
        assert(d == digit_value(c));
        value = value * 10 + d as u64;
        assert(all_digits(next)) by {
            assert forall|k: int| 0 <= k < next.len() implies is_digit(#[trigger] next[k]) by {
                if k < prev.len() {
                    assert(next[k] == prev[k]);
                }
            }
        }
        if value > 0xffff_ffff {
            i = i + 1;
            proof {
                if all_digits(body) {
                    assert(body.subrange(0, (i - start) as int) =~= next);
                    lemma_digits_value_prefix(body, (i - start) as int);
                    assert(digits_value(body) > u32::MAX);
                }
            }
            return None;
        }
        i = i + 1;
    }
    assert(chars@.subrange(start as int, i as int) =~= body);
    Some(value as u32)
}

/// The characters `a`, `p` and `m` that `trim_end_matches` strips.
pub open spec fn is_apm(c: char) -> bool {
    c == 'a' || c == 'p' || c == 'm'
}

/// The end of `chars[lo..hi]` once its trailing `a`, `p` and `m` are gone.
fn trim_end_apm_range(chars: &Vec<char>, lo: usize, hi: usize) -> (r: usize)
    requires
        lo <= hi <= chars@.len(),
    ensures
        lo <= r <= hi,
        chars@.subrange(lo as int, r as int) == trim_end_apm(chars@.subrange(lo as int, hi as int)),
{
    let mut j = hi;
    while j > lo && (chars[j - 1] == 'a' || chars[j - 1] == 'p' || chars[j - 1] == 'm')
        invariant
            lo <= j <= hi <= chars@.len(),
            trim_end_apm(chars@.subrange(lo as int, j as int)) == trim_end_apm(
                chars@.subrange(lo as int, hi as int),
            ),
        decreases j,
    {
        assert(chars@.subrange(lo as int, j as int).drop_last() =~= chars@.subrange(
            lo as int,
            j - 1,
        ));
        j = j - 1;
    }
    j
}

/// Where the only colon of the text stands, when it holds exactly one.
fn find_single_colon(chars: &Vec<char>) -> (r: Option<usize>)
    ensures
        match r {
            Some(k) => k < chars@.len() && split_colons(chars@) == seq![
                chars@.subrange(0, k as int),
                chars@.subrange(k + 1, chars@.len() as int),
            ],
            None => split_colons(chars@).len() != 2,
        },
{
    let n = chars.len();
    let mut count: usize = 0;
    let mut k: usize = 0;
    let mut i: usize = 0;
    assert(chars@.subrange(0, 0) =~= Seq::<char>::empty());
    while i < n
        invariant
            n == chars@.len(),
            i <= n,
            count <= 2,
            count < 2 ==> split_colons(chars@.subrange(0, i as int)).len() == count + 1,
            count == 2 ==> split_colons(chars@.subrange(0, i as int)).len() >= 3,
            count == 0 ==> split_colons(chars@.subrange(0, i as int)) == seq![
                chars@.subrange(0, i as int),
            ],
            count == 1 ==> k < i && chars@[k as int] == ':' && split_colons(
                chars@.subrange(0, i as int),
            ) == seq![chars@.subrange(0, k as int), chars@.subrange(k + 1, i as int)],
        decreases n - i,
    {
        let ghost pre = chars@.subrange(0, i as int);
        let ghost nxt = chars@.subrange(0, i + 1);
        assert(nxt.drop_last() =~= pre);
        assert(nxt.last() == chars@[i as int]);
        if chars[i] == ':' {
            if count == 0 {
                k = i;
                assert(chars@.subrange(k + 1, i + 1) =~= Seq::<char>::empty());
                assert(split_colons(nxt) =~= seq![pre, Seq::<char>::empty()]);
            }
            if count < 2 {
                count = count + 1;
            }
        } else {
            assert(pre.push(chars@[i as int]) =~= nxt);
            if count == 0 {
                assert(split_colons(nxt) =~= seq![nxt]);
            } else if count == 1 {
                assert(chars@.subrange(k + 1, i + 1) =~= chars@.subrange(k + 1, i as int).push(
                    chars@[i as int],
                ));
                assert(split_colons(nxt) =~= seq![
                    chars@.subrange(0, k as int),
                    chars@.subrange(k + 1, i + 1),
                ]);
            }
        }
        i = i + 1;
    }
    assert(chars@.subrange(0, n as int) =~= chars@);
    if count != 1 {
        None
    } else {
        Some(k)
    }
}

/// Parses a typed time of day such as `1:30pm` into (hour, minute) on the
/// twenty-four-hour clock; `None` for anything else.
pub fn parse_time(val: &str) -> (r: Option<(u32, u32)>)
    ensures
        r == time_of_text(val@),
{
    let chars = chars_of(val);
    let n = chars.len();
    let is_pm = n >= 2 && chars[n - 2] == 'p' && chars[n - 1] == 'm';
    let is_am = n >= 2 && chars[n - 2] == 'a' && chars[n - 1] == 'm';
    if !(is_am || is_pm) {
        return None;
    }
    let colon = find_single_colon(&chars);
    let k = match colon {
        Some(k) => k,
        None => {
            return None;
        },
    };
    let hour_opt = parse_u32_range(&chars, 0, k);
    let end = trim_end_apm_range(&chars, k + 1, n);
    let minute_opt = parse_u32_range(&chars, k + 1, end);
    match (hour_opt, minute_opt) {
        (Some(hour), Some(minute)) => {
            if hour < 1 || hour > 12 || minute > 59 {
                return None;
            }
            let hour = if is_pm {
                if hour != 12 {
                    hour + 12
                } else {
                    hour
                }
            } else {
                hour % 12
            };
            Some((hour, minute))
        },
        _ => None,
    }
}


/// The single-character text of a decimal digit.
fn digit_str(d: u32) -> (r: &'static str)
    requires
        d < 10,
    ensures
        r@ == seq![digit_char(d as nat)],
{
    match d {
        0 => {
            proof {
                reveal_strlit("0");
            }
            "0"
        },
        1 => {
            proof {
                reveal_strlit("1");
            }
            "1"
        },
        2 => {
            proof {
                reveal_strlit("2");
            }
            "2"
        },
        3 => {
            proof {
                reveal_strlit("3");
            }
            "3"
        },
        4 => {
            proof {
                reveal_strlit("4");
            }
            "4"
        },
        5 => {
            proof {
                reveal_strlit("5");
            }
            "5"
        },
        6 => {
            proof {
                reveal_strlit("6");
            }
            "6"
        },
        7 => {
            proof {
                reveal_strlit("7");
            }
            "7"
        },
        8 => {
            proof {
                reveal_strlit("8");
            }
            "8"
        },
        _ => {
            proof {
                reveal_strlit("9");
            }
            "9"
        },
    }
}

/// The decimal numeral of a number (`{}`).
pub fn decimal_string(n: u32) -> (r: String)
    ensures
        r@ == decimal(n as nat),
    decreases n,
{
    if n < 10 {
        digit_str(n).to_owned()
    } else {
        let s = decimal_string(n / 10);
        s.concat(digit_str(n % 10))
    }
}

/// The decimal numeral of a 64-bit number (`{}`).
pub fn decimal_u64_string(n: u64) -> (r: String)
    ensures
        r@ == decimal(n as nat),
    decreases n,
{
    if n < 10 {
        digit_str(n as u32).to_owned()
    } else {
        let s = decimal_u64_string(n / 10);
        s.concat(digit_str((n % 10) as u32))
    }
}

/// The decimal numeral of an integer, with a minus sign when it is negative.
pub open spec fn signed_decimal(x: int) -> Seq<char> {
    if x < 0 {
        seq!['-'] + decimal((-x) as nat)
    } else {
        decimal(x as nat)
    }
}

/// The decimal numeral of a signed 64-bit number (`{}`).
pub fn signed_decimal_string(x: i64) -> (r: String)
    ensures
        r@ == signed_decimal(x as int),
{
    if x < 0 {
        let magnitude: u64 = ((-(x + 1)) as u64) + 1;
        assert(magnitude as int == -(x as int));
        proof {
            reveal_strlit("-");
        }
        let sign = "-".to_owned();
        let digits = decimal_u64_string(magnitude);
        let r = sign.concat(digits.as_str());
        assert(r@ =~= seq!['-'] + decimal((-(x as int)) as nat));
        r
    } else {
        decimal_u64_string(x as u64)
    }
}

/// The numeral of a number padded with zeros to two digits (`{:02}`).
pub fn two_digit_string(n: u32) -> (r: String)
    ensures
        r@ == two_digits(n as nat),
{
    if n < 10 {
        proof {
            reveal_strlit("0");
        }
        let s = "0".to_owned();
        let r = s.concat(digit_str(n));
        assert(r@ =~= seq!['0', digit_char(n as nat)]);
        r
    } else {
        decimal_string(n)
    }
}

/// A clock time (hour, minute) as `hh:mmam` / `hh:mmpm` on a twelve-hour dial.
pub fn to_12_hr_clock_str(clock: (u32, u32)) -> (r: String)
    ensures
        r@ == clock_text(clock.0 as nat, clock.1 as nat),
{
    let ampm = if clock.0 < 12 {
        proof {
            reveal_strlit("am");
        }
        "am"
    } else {
        proof {
            reveal_strlit("pm");
        }
        "pm"
    };
    let hr = clock.0 % 12;
    let hr = if hr == 0 {
        12
    } else {
        hr
    };
    let mut s = two_digit_string(hr);
    proof {
        reveal_strlit(":");
    }
    s.append(":");
    let minutes = two_digit_string(clock.1);
    s.append(minutes.as_str());
    s.append(ampm);
    assert(s@ =~= clock_text(clock.0 as nat, clock.1 as nat));
    s
}

/// The clock face shown beside an hour, one for each hour of a twelve-hour dial.
pub open spec fn clock_emoji(hour: nat) -> Seq<char> {
    let h = hour % 12;
    if h == 0 {
        "🕛️"@
    } else if h == 1 {
        "🕐️"@
    } else if h == 2 {
        "🕑️️"@
    } else if h == 3 {
        "🕒️"@
    } else if h == 4 {
        "🕓️"@
    } else if h == 5 {
        "🕔️"@
    } else if h == 6 {
        "🕕️"@
    } else if h == 7 {
        "🕖️"@
    } else if h == 8 {
        "🕗️"@
    } else if h == 9 {
        "🕘️"@
    } else if h == 10 {
        "🕙️"@
    } else {
        "🕚️"@
    }
}

/// The clock face for an hour of the day.
pub fn get_clock_emoji_for_hour(hour: u32) -> (r: &'static str)
    ensures
        r@ == clock_emoji(hour as nat),
{
    match hour % 12 {
        0 => "🕛️",
        1 => "🕐️",
        2 => "🕑️️",
        3 => "🕒️",
        4 => "🕓️",
        5 => "🕔️",
        6 => "🕕️",
        7 => "🕖️",
        8 => "🕗️",
        9 => "🕘️",
        10 => "🕙️",
        11 => "🕚️",
        _ => "⏰️",
    }
}


proof fn lemma_digit_char(d: nat)
    requires
        d < 10,
    ensures
        is_digit(digit_char(d)),
        digit_value(digit_char(d)) == d,
        digit_char(d) != ':' && digit_char(d) != '+',
        !is_apm(digit_char(d)),
{
}

proof fn lemma_decimal(n: nat)
    ensures
        decimal(n).len() >= 1,
        all_digits(decimal(n)),
        digits_value(decimal(n)) == n,
    decreases n,
{
    lemma_digit_char(n % 10);
    if n >= 10 {
        lemma_decimal(n / 10);
        let s = decimal(n);
        assert(s.drop_last() =~= decimal(n / 10));
        assert(s.last() == digit_char(n % 10));
        assert(digits_value(s) == digits_value(decimal(n / 10)) * 10 + digit_value(digit_char(n % 10)));
        assert(n == (n / 10) * 10 + n % 10);
        assert forall|i: int| 0 <= i < s.len() implies is_digit(#[trigger] s[i]) by {
            if i < s.len() - 1 {
                assert(s[i] == decimal(n / 10)[i]);
            }
        }
    } else {
        assert(seq![digit_char(n)].drop_last() =~= Seq::<char>::empty());
        assert(digits_value(Seq::<char>::empty()) == 0);
        assert(digits_value(decimal(n)) == digits_value(Seq::<char>::empty()) * 10 + digit_value(digit_char(n)));
    }
}

proof fn lemma_two_digits(n: nat)
    ensures
        two_digits(n).len() >= 1,
        all_digits(two_digits(n)),
        digits_value(two_digits(n)) == n,
{
    lemma_decimal(n);
    if n < 10 {
        lemma_digit_char(n);
        lemma_digit_char(0);
        let s = two_digits(n);
        assert(s.drop_last() =~= seq!['0']);
        assert(seq!['0'].drop_last() =~= Seq::<char>::empty());
        assert(digit_value('0') == 0);
        assert(digits_value(Seq::<char>::empty()) == 0);
        assert(digits_value(seq!['0']) == digits_value(Seq::<char>::empty()) * 10 + digit_value('0'));
        assert(digits_value(s) == digits_value(seq!['0']) * 10 + digit_value(digit_char(n)));
    }
}

/// A non-empty text of digits whose number fits in 32 bits parses to that number.
proof fn lemma_parse_digits(s: Seq<char>)
    requires
        s.len() >= 1,
        all_digits(s),
        digits_value(s) <= u32::MAX,
    ensures
        parse_u32_text(s) == Some(digits_value(s) as u32),
{
    assert(is_digit(s[0]));
}

/// Splitting at colons, when the added tail holds none, only lengthens the last piece.
proof fn lemma_split_colon_free_tail(x: Seq<char>, y: Seq<char>)
    requires
        forall|i: int| 0 <= i < y.len() ==> #[trigger] y[i] != ':',
    ensures
        split_colons(x + y) == split_colons(x).update(
            split_colons(x).len() - 1,
            split_colons(x).last() + y,
        ),
        split_colons(x + y).len() == split_colons(x).len(),
    decreases y.len(),
{
    lemma_split_nonempty(x);
    if y.len() == 0 {
        assert(x + y =~= x);
        assert(split_colons(x).last() + y =~= split_colons(x).last());
        assert(split_colons(x).update(split_colons(x).len() - 1, split_colons(x).last())
            =~= split_colons(x));
    } else {
        let y0 = y.drop_last();
        lemma_split_colon_free_tail(x, y0);
        assert((x + y).drop_last() =~= x + y0);
        assert((x + y).last() == y.last());
        assert(split_colons(x).last() + y0 + seq![y.last()] =~= split_colons(x).last() + y);
        assert((split_colons(x).last() + y0).push(y.last()) =~= split_colons(x).last() + y);
        assert(split_colons(x + y) =~= split_colons(x).update(
            split_colons(x).len() - 1,
            split_colons(x).last() + y,
        ));
    }
}

proof fn lemma_split_nonempty(x: Seq<char>)
    ensures
        split_colons(x).len() >= 1,
    decreases x.len(),
{
    if x.len() > 0 {
        lemma_split_nonempty(x.drop_last());
    }
}

/// A text with one colon splits into the part before it and the part after it.
proof fn lemma_split_one_colon(a: Seq<char>, b: Seq<char>)
    requires
        forall|i: int| 0 <= i < a.len() ==> #[trigger] a[i] != ':',
        forall|i: int| 0 <= i < b.len() ==> #[trigger] b[i] != ':',
    ensures
        split_colons(a + seq![':'] + b) == seq![a, b],
{
    let e = Seq::<char>::empty();
    lemma_split_colon_free_tail(e, a);
    assert(e + a =~= a);
    assert(split_colons(e) =~= seq![e]);
    assert(split_colons(a) =~= seq![a]);
    let x = a + seq![':'];
    assert(x.drop_last() =~= a);
    assert(split_colons(x) =~= seq![a, e]);
    lemma_split_colon_free_tail(x, b);
    assert(e + b =~= b);
    assert(split_colons(x + b) =~= seq![a, b]);
}

/// Writing a clock time and reading it back gives the same time, for every
/// hour and minute of the day.
pub proof fn lemma_clock_text_round_trip(h: nat, m: nat)
    requires
        h < 24,
        m < 60,
    ensures
        time_of_text(clock_text(h, m)) == Some((h as u32, m as u32)),
{
    let hh = twelve_hour(h);
    let a = two_digits(hh);
    let md = two_digits(m);
    let suffix = if h < 12 {
        seq!['a', 'm']
    } else {
        seq!['p', 'm']
    };
    let b = md + suffix;
    lemma_two_digits(hh);
    lemma_two_digits(m);
    let s = clock_text(h, m);
    assert(s =~= a + seq![':'] + b);
    assert forall|i: int| 0 <= i < a.len() implies #[trigger] a[i] != ':' by {
        assert(is_digit(a[i]));
    }
    assert forall|i: int| 0 <= i < b.len() implies #[trigger] b[i] != ':' by {
        if i < md.len() {
            assert(is_digit(md[i]));
            assert(b[i] == md[i]);
        }
    }
    lemma_split_one_colon(a, b);
    assert(split_colons(s) == seq![a, b]);
    // The minute part loses its am/pm letters and nothing else.
    assert(b.drop_last() =~= md + seq![suffix[0]]);
    assert((md + seq![suffix[0]]).drop_last() =~= md);
    assert(is_digit(md.last()));
    assert(trim_end_apm(md) == md);
    assert(trim_end_apm(md + seq![suffix[0]]) == md);
    assert(trim_end_apm(b) == md);
    lemma_parse_digits(a);
    lemma_parse_digits(md);
    assert(ends_with_pair(s, suffix[0], 'm'));
}

/// A time read from text is a time of the twenty-four-hour clock, with a
/// minute below 60.
pub proof fn lemma_time_of_text_range(s: Seq<char>)
    ensures
        time_of_text(s) matches Some((h, m)) ==> h < 24 && m < 60,
{
}

/// A time typed with `am` reads as a time before noon, one typed with `pm`
/// as a time from noon on; the minute is the one typed.
pub proof fn law_am_before_noon_pm_after(s: Seq<char>)
    ensures
        time_of_text(s) matches Some((h, m)) ==> (ends_with_pair(s, 'a', 'm') ==> h < 12) && (
        ends_with_pair(s, 'p', 'm') ==> 12 <= h < 24) && parse_u32_text(
            trim_end_apm(split_colons(s)[1]),
        ) == Some(m),
{
}

} // verus!
