//! Plain-text helpers: decimal numbers, the JSON that describes a training
//! run, and the parsing of a comma-separated list of layer sizes.

use vstd::prelude::*;

verus! {

/// The character of the decimal digit `d`.
pub open spec fn digit_char(d: int) -> char {
    (48 + d) as char
}

/// `n` written in decimal, without leading zeros.
pub open spec fn decimal(n: nat) -> Seq<char>
    decreases n,
{
    if n < 10 {
        seq![digit_char(n as int)]
    } else {
        decimal(n / 10).push(digit_char((n % 10) as int))
    }
}

/// The numbers of `xs` in decimal, separated by commas.
pub open spec fn decimal_list(xs: Seq<usize>) -> Seq<char>
    decreases xs.len(),
{
    if xs.len() == 0 {
        Seq::empty()
    } else if xs.len() == 1 {
        decimal(xs[0] as nat)
    } else {
        decimal_list(xs.drop_last()) + seq![','] + decimal(xs.last() as nat)
    }
}

/// The texts of `parts`, separated by commas.
pub open spec fn comma_joined(parts: Seq<Seq<char>>) -> Seq<char>
    decreases parts.len(),
{
    if parts.len() == 0 {
        Seq::empty()
    } else if parts.len() == 1 {
        parts[0]
    } else {
        comma_joined(parts.drop_last()) + seq![','] + parts.last()
    }
}

/// The one-character text of the decimal digit `d`.
fn digit_str(d: usize) -> (s: &'static str)
    requires
        d < 10,
    ensures
        s@ == seq![digit_char(d as int)],
{
    proof {
        reveal_strlit("0");
        reveal_strlit("1");
        reveal_strlit("2");
        reveal_strlit("3");
        reveal_strlit("4");
        reveal_strlit("5");
        reveal_strlit("6");
        reveal_strlit("7");
        reveal_strlit("8");
        reveal_strlit("9");
    }
    let s = if d == 0 {
        "0"
    } else if d == 1 {
        "1"
    } else if d == 2 {
        "2"
    } else if d == 3 {
        "3"
    } else if d == 4 {
        "4"
    } else if d == 5 {
        "5"
    } else if d == 6 {
        "6"
    } else if d == 7 {
        "7"
    } else if d == 8 {
        "8"
    } else {
        "9"
    };
    assert(s@ =~= seq![digit_char(d as int)]);
    s
}

/// Append `n` in decimal to `out`.
pub fn push_decimal(out: &mut String, n: usize)
    ensures
        final(out)@ == old(out)@ + decimal(n as nat),
    decreases n,
{
    if n >= 10 {
        push_decimal(out, n / 10);
    }
    out.append(digit_str(n % 10));
}

/// Append the numbers of `xs` in decimal, separated by commas, to `out`.
pub fn push_decimal_list(out: &mut String, xs: &[usize])
    ensures
        final(out)@ == old(out)@ + decimal_list(xs@),
{
    let mut i: usize = 0;
    while i < xs.len()
        invariant
            i <= xs@.len(),
            out@ == old(out)@ + decimal_list(xs@.take(i as int)),
        decreases xs@.len() - i,
    {
        let ghost before = out@;
        if i > 0 {
            proof {
                reveal_strlit(",");
            }
            out.append(",");
        }
        push_decimal(out, xs[i]);
        let ghost pre = xs@.take(i as int);
        let ghost post = xs@.take(i + 1);
        assert(post.drop_last() =~= pre);
        assert(post.last() == xs@[i as int]);
        if i > 0 {
            assert(decimal_list(post) == decimal_list(pre) + seq![','] + decimal(xs@[i as int] as nat));
            assert(out@ =~= old(out)@ + decimal_list(post));
        } else {
            assert(post.len() == 1);
            assert(decimal_list(post) == decimal(post[0] as nat));
            assert(out@ =~= old(out)@ + decimal_list(post));
        }
        i = i + 1;
    }
    assert(xs@.take(i as int) =~= xs@);
}

/// `{"layers":[..],"steps":N}`: the layer widths of a network and the number
/// of training steps, enough for a viewer to lay the network out before the
/// first frame arrives.
pub fn layout_json(layers: &[usize], steps: usize) -> (s: String)
    ensures
        s@ == "{\"layers\":["@ + decimal_list(layers@) + "],\"steps\":"@ + decimal(steps as nat)
            + "}"@,
{
    let mut s = String::new();
    s.append("{\"layers\":[");
    push_decimal_list(&mut s, layers);
    s.append("],\"steps\":");
    push_decimal(&mut s, steps);
    s.append("}");
    s
}

/// `{"layers":[..],"frames":[..]}`: the layer widths of a network and the
/// recorded frames, each already a JSON value.
pub fn recording_json(layers: &[usize], frames: &[String]) -> (s: String)
    ensures
        s@ == "{\"layers\":["@ + decimal_list(layers@) + "],\"frames\":["@ + comma_joined(
            frames@.map_values(|f: String| f@),
        ) + "]}"@,
{
    let ghost texts = frames@.map_values(|f: String| f@);
    let mut s = String::new();
    s.append("{\"layers\":[");
    push_decimal_list(&mut s, layers);
    s.append("],\"frames\":[");
    let ghost head = s@;
    let mut i: usize = 0;
    while i < frames.len()
        invariant
            i <= frames@.len(),
            texts == frames@.map_values(|f: String| f@),
            s@ == head + comma_joined(texts.take(i as int)),
        decreases frames@.len() - i,
    {
        if i > 0 {
            proof {
                reveal_strlit(",");
            }
            s.append(",");
        }
        s.append(frames[i].as_str());
        let ghost pre = texts.take(i as int);
        let ghost post = texts.take(i + 1);
        assert(post.drop_last() =~= pre);
        assert(post.last() == frames@[i as int]@);
        if i > 0 {
            assert(comma_joined(post) == comma_joined(pre) + seq![','] + post.last());
            assert(s@ =~= head + comma_joined(post));
        } else {
            assert(post.len() == 1);
            assert(s@ =~= head + comma_joined(post));
        }
        i = i + 1;
    }
    assert(texts.take(i as int) =~= texts);
    s.append("]}");
    s
}

/// `c` is white space in the sense of Unicode's `White_Space` property.
pub open spec fn is_white(c: char) -> bool {
    ||| '\t' <= c <= '\r'
    ||| c == ' '
    ||| c == '\u{85}'
    ||| c == '\u{A0}'
    ||| c == '\u{1680}'
    ||| '\u{2000}' <= c <= '\u{200A}'
    ||| c == '\u{2028}'
    ||| c == '\u{2029}'
    ||| c == '\u{202F}'
    ||| c == '\u{205F}'
    ||| c == '\u{3000}'
}

/// `s` without its leading white space.
pub open spec fn trim_start(s: Seq<char>) -> Seq<char>
    decreases s.len(),
{
    if s.len() > 0 && is_white(s[0]) {
        trim_start(s.drop_first())
    } else {
        s
    }
}

/// `s` without its trailing white space.
pub open spec fn trim_end(s: Seq<char>) -> Seq<char>
    decreases s.len(),
{
    if s.len() > 0 && is_white(s.last()) {
        trim_end(s.drop_last())
    } else {
        s
    }
}

/// `s` without white space at either end.
pub open spec fn trim(s: Seq<char>) -> Seq<char> {
    trim_end(trim_start(s))
}

pub open spec fn is_digit(c: char) -> bool {
    '0' <= c <= '9'
}

/// The number that the decimal digits `ds` denote.
pub open spec fn digits_value(ds: Seq<char>) -> int
    decreases ds.len(),
{
    if ds.len() == 0 {
        0
    } else {
        digits_value(ds.drop_last()) * 10 + (ds.last() as int - 48)
    }
}

/// A non-empty run of decimal digits denoting a value that fits in a `usize`.
pub open spec fn parse_digits(ds: Seq<char>) -> Option<usize> {
    if ds.len() > 0 && (forall|i: int| 0 <= i < ds.len() ==> is_digit(#[trigger] ds[i]))
        && digits_value(ds) <= usize::MAX {
        Some(digits_value(ds) as usize)
    } else {
        None
    }
}

/// An unsigned machine integer written in decimal: one or more digits, with
/// an optional leading `+`, denoting a value that fits in a `usize`.
pub open spec fn parse_usize(s: Seq<char>) -> Option<usize> {
    if s.len() > 0 && s[0] == '+' {
        parse_digits(s.drop_first())
    } else {
        parse_digits(s)
    }
}

/// The pieces of `s` between commas (one more piece than there are commas).
pub open spec fn fields(s: Seq<char>) -> Seq<Seq<char>>
    decreases s.len(),
{
    if s.len() == 0 {
        seq![Seq::empty()]
    } else {
        let f = fields(s.drop_last());
        if s.last() == ',' {
            f.push(Seq::empty())
        } else {
            f.update(f.len() - 1, f.last().push(s.last()))
        }
    }
}

/// The positive sizes among `fs`, in order: each piece is trimmed of white
/// space and read as a `usize`; pieces that do not read, and zeros, are
/// skipped.
pub open spec fn positive_sizes(fs: Seq<Seq<char>>) -> Seq<usize>
    decreases fs.len(),
{
    if fs.len() == 0 {
        Seq::empty()
    } else {
        positive_sizes(fs.drop_last()) + match parse_usize(trim(fs.last())) {
            Some(v) => if v > 0 {
                seq![v]
            } else {
                Seq::empty()
            },
            None => Seq::empty(),
        }
    }
}

proof fn lemma_trim_start_skip(s: Seq<char>, i: int)
    requires
        0 <= i < s.len(),
        is_white(s[i]),
    ensures
        trim_start(s.subrange(i, s.len() as int)) == trim_start(s.subrange(i + 1, s.len() as int)),
{
    let t = s.subrange(i, s.len() as int);
    assert(t.drop_first() =~= s.subrange(i + 1, s.len() as int));
}

proof fn lemma_trim_end_skip(s: Seq<char>, j: int)
    requires
        0 < j <= s.len(),
        is_white(s[j - 1]),
    ensures
        trim_end(s.take(j)) == trim_end(s.take(j - 1)),
{
    assert(s.take(j).drop_last() =~= s.take(j - 1));
}

/// A longer run of digits denotes at least as much.
proof fn lemma_digits_value_grows(ds: Seq<char>, k: int)
    requires
        0 <= k <= ds.len(),
        forall|i: int| 0 <= i < ds.len() ==> is_digit(#[trigger] ds[i]),
    ensures
        0 <= digits_value(ds.take(k)) <= digits_value(ds),
    decreases ds.len() - k,
{
    if k < ds.len() {
        lemma_digits_value_grows(ds, k + 1);
        assert(ds.take(k + 1).drop_last() =~= ds.take(k));
        assert(is_digit(ds[k]));
    } else {
        assert(ds.take(k) =~= ds);
        lemma_digits_value_nonneg(ds);
    }
}

proof fn lemma_digits_value_nonneg(ds: Seq<char>)
    requires
        forall|i: int| 0 <= i < ds.len() ==> is_digit(#[trigger] ds[i]),
    ensures
        digits_value(ds) >= 0,
    decreases ds.len(),
{
    if ds.len() > 0 {
        lemma_digits_value_nonneg(ds.drop_last());
        assert(is_digit(ds.last()));
    }
}

fn is_white_char(c: char) -> (b: bool)
    ensures
        b == is_white(c),
{
    ('\t' <= c && c <= '\r') || c == ' ' || c == '\u{85}' || c == '\u{A0}' || c == '\u{1680}' || (
    '\u{2000}' <= c && c <= '\u{200A}') || c == '\u{2028}' || c == '\u{2029}' || c == '\u{202F}'
        || c == '\u{205F}' || c == '\u{3000}'
}

/// Read one piece of a size list: trim white space, then read a `usize`.
fn parse_field(f: &Vec<char>) -> (r: Option<usize>)
    ensures
        r == parse_usize(trim(f@)),
{
    let n = f.len();
    let mut i: usize = 0;
    assert(f@.subrange(0, n as int) =~= f@);
    while i < n && is_white_char(f[i])
        invariant
            n == f@.len(),
            i <= n,
            trim_start(f@) == trim_start(f@.subrange(i as int, n as int)),
        decreases n - i,
    {
        proof {
            lemma_trim_start_skip(f@, i as int);
        }
        i = i + 1;
    }
    let ghost rest = f@.subrange(i as int, n as int);
    assert(trim_start(rest) == rest);
    let mut j: usize = n;
    assert(rest.take(n - i) =~= rest);
    while j > i && is_white_char(f[j - 1])
        invariant
            n == f@.len(),
            i <= j <= n,
            rest == f@.subrange(i as int, n as int),
            trim_end(rest) == trim_end(rest.take(j - i)),
        decreases j,
    {
        proof {
            lemma_trim_end_skip(rest, j - i);
        }
        j = j - 1;
    }
    let ghost t = f@.subrange(i as int, j as int);
    assert(rest.take(j - i) =~= t);
    assert(trim_end(t) == t);
    assert(trim(f@) == t);
    if i < j && f[i] == '+' {
        assert(t.drop_first() =~= f@.subrange(i + 1, j as int));
        parse_digit_run(f, i + 1, j)
    } else {
        parse_digit_run(f, i, j)
    }
}

/// Read the digits `f[start..end]` as a `usize`.
fn parse_digit_run(f: &Vec<char>, start: usize, end: usize) -> (r: Option<usize>)
    requires
        start <= end <= f@.len(),
    ensures
        r == parse_digits(f@.subrange(start as int, end as int)),
{
    let ghost ds = f@.subrange(start as int, end as int);
    if start == end {
        return None;
    }
    let mut v: usize = 0;
    let mut k: usize = start;
    while k < end
        invariant
            start <= k <= end <= f@.len(),
            ds == f@.subrange(start as int, end as int),
            forall|m: int| 0 <= m < k - start ==> is_digit(#[trigger] ds[m]),
            v == digits_value(ds.take(k - start)),
        decreases end - k,
    {
        let c = f[k];
        assert(ds[k - start] == c);
        if !('0' <= c && c <= '9') {
            assert(!is_digit(ds[k - start]));
            return None;
        }
        let d = (c as u32 - 48) as usize;
        let ghost pre = ds.take(k - start);
        let ghost post = ds.take(k - start + 1);
        assert(post.drop_last() =~= pre);
        assert(post.last() == c);
        assert(digits_value(post) == v * 10 + d);
        match v.checked_mul(10) {
            Some(w) => match w.checked_add(d) {
                Some(x) => {
                    v = x;
                },
                None => {
                    proof {
                        if forall|m: int| 0 <= m < ds.len() ==> is_digit(#[trigger] ds[m]) {
                            lemma_digits_value_grows(ds, k - start + 1);
                            assert(digits_value(ds) > usize::MAX);
                        }
                    }
                    return None;
                },
            },
            None => {
                proof {
                    if forall|m: int| 0 <= m < ds.len() ==> is_digit(#[trigger] ds[m]) {
                        lemma_digits_value_grows(ds, k - start + 1);
                        assert(v * 10 > usize::MAX);
                        assert(digits_value(ds) > usize::MAX);
                    }
                }
                return None;
            },
        }
        k = k + 1;
    }
    assert(ds.take(k - start) =~= ds);
    Some(v)
}

/// Layer sizes from a comma-separated list such as `"16, 16"`: each piece
/// is trimmed of white space and read as a `usize`; pieces that do not read,
/// and zeros, are skipped.
pub fn parse_hidden(s: &str) -> (sizes: Vec<usize>)
    ensures
        sizes@ == positive_sizes(fields(s@)),
{
    let cs = chars_of(s);
    let mut sizes: Vec<usize> = Vec::new();
    let mut cur: Vec<char> = Vec::new();
    let ghost mut done: Seq<Seq<char>> = Seq::empty();
    let mut i: usize = 0;
    while i < cs.len()
        invariant
            i <= cs@.len(),
            cs@ == s@,
            fields(cs@.take(i as int)) == done.push(cur@),
            sizes@ == positive_sizes(done),
        decreases cs@.len() - i,
    {
        let c = cs[i];
        let ghost pre = cs@.take(i as int);
        assert(cs@.take(i + 1).drop_last() =~= pre);
        assert(cs@.take(i + 1).last() == c);
        if c == ',' {
            let r = parse_field(&cur);
            match r {
                Some(v) => if v > 0 {
                    sizes.push(v);
                },
                None => {},
            }
            proof {
                let old_done = done;
                done = done.push(cur@);
                assert(done.drop_last() =~= old_done);
                assert(sizes@ =~= positive_sizes(done));
            }
            cur = Vec::new();
            assert(fields(cs@.take(i + 1)) =~= done.push(cur@));
        } else {
            let ghost old_cur = cur@;
            cur.push(c);
            assert(fields(cs@.take(i + 1)) =~= done.push(cur@));
        }
        i = i + 1;
    }
    let r = parse_field(&cur);
    match r {
        Some(v) => if v > 0 {
            sizes.push(v);
        },
        None => {},
    }
    proof {
        let all = done.push(cur@);
        assert(all.drop_last() =~= done);
        assert(cs@.take(i as int) =~= s@);
        assert(sizes@ =~= positive_sizes(all));
    }
    sizes
}

/// The characters of `s`, in order.
fn chars_of(s: &str) -> (v: Vec<char>)
    ensures
        v@ == s@,
{
    broadcast use vstd::string::group_string_axioms;

    let mut v: Vec<char> = Vec::new();
    for c in it: s.chars()
        invariant
            v@ == it.history(),
    {
        v.push(c);
    }
    v
}

} // verus!
