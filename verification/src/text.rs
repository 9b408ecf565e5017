//! Text primitives on `Seq<char>`: Unicode whitespace, splitting into
//! words, joining with a separator.
use vstd::prelude::*;
use vstd::std_specs::iter::IteratorSpec;

verus! {

broadcast use vstd::string::group_string_axioms;

/// The Unicode `White_Space` property, which `char::is_whitespace` decides.
pub open spec fn is_space(c: char) -> bool {
    let v = c as u32;
    ||| 0x09 <= v <= 0x0d
    ||| v == 0x20
    ||| v == 0x85
    ||| v == 0xa0
    ||| v == 0x1680
    ||| 0x2000 <= v <= 0x200a
    ||| v == 0x2028
    ||| v == 0x2029
    ||| v == 0x202f
    ||| v == 0x205f
    ||| v == 0x3000
}

/// Decides `is_space`.
pub fn is_whitespace(c: char) -> (b: bool)
    ensures
        b == is_space(c),
{
    let v: u32 = c as u32;
    (0x09 <= v && v <= 0x0d) || v == 0x20 || v == 0x85 || v == 0xa0 || v == 0x1680 || (0x2000
        <= v && v <= 0x200a) || v == 0x2028 || v == 0x2029 || v == 0x202f || v == 0x205f || v
        == 0x3000
}

/// Scanning `s` from the left: the words completed so far, and the word
/// being read (empty after a space).
pub open spec fn scan_words(s: Seq<char>) -> (Seq<Seq<char>>, Seq<char>)
    decreases s.len(),
{
    if s.len() == 0 {
        (seq![], seq![])
    } else {
        let (done, cur) = scan_words(s.drop_last());
        let c = s.last();
        if is_space(c) {
            if cur.len() > 0 {
                (done.push(cur), seq![])
            } else {
                (done, seq![])
            }
        } else {
            (done, cur.push(c))
        }
    }
}

/// The words of `s`: its maximal runs of non-space characters, in order.
pub open spec fn words(s: Seq<char>) -> Seq<Seq<char>> {
    let (done, cur) = scan_words(s);
    if cur.len() > 0 {
        done.push(cur)
    } else {
        done
    }
}

/// `parts` joined with `sep` between neighbours.
pub open spec fn join(parts: Seq<Seq<char>>, sep: Seq<char>) -> Seq<char>
    decreases parts.len(),
{
    if parts.len() == 0 {
        seq![]
    } else if parts.len() == 1 {
        parts[0]
    } else {
        join(parts.drop_last(), sep) + sep + parts.last()
    }
}

/// Joining a non-empty sequence whose last part is non-empty gives a
/// non-empty text.
pub proof fn lemma_join_nonempty(parts: Seq<Seq<char>>, sep: Seq<char>)
    requires
        parts.len() > 0,
        parts.last().len() > 0,
    ensures
        join(parts, sep).len() > 0,
{
}

/// Joining two non-empty sequences of parts one after the other is
/// joining each and putting the separator between.
pub proof fn lemma_join_concat(a: Seq<Seq<char>>, b: Seq<Seq<char>>, sep: Seq<char>)
    requires
        a.len() > 0,
        b.len() > 0,
    ensures
        join(a + b, sep) == join(a, sep) + sep + join(b, sep),
    decreases b.len(),
{
    if b.len() == 1 {
        assert((a + b).drop_last() =~= a);
    } else {
        lemma_join_concat(a, b.drop_last(), sep);
        assert((a + b).drop_last() =~= a + b.drop_last());
        assert(join(a + b, sep) =~= join(a, sep) + sep + join(b, sep));
    }
}

/// The views of a sequence of strings.
pub open spec fn views(v: Seq<String>) -> Seq<Seq<char>> {
    v.map_values(|s: String| s@)
}

/// What `str::to_lowercase` returns for a text: the Unicode lowercase
/// mapping, character by character, with the context rule for final sigma.
pub uninterp spec fn lowercase_of(s: Seq<char>) -> Seq<char>;

/// Lowercases `s` (`str::to_lowercase`). Its result is a function of `s`
/// alone; what that function is (Unicode case tables) is named, not stated.
#[verifier::external_body]
pub(crate) fn to_lowercase(s: &str) -> (lower: String)
    ensures
        lower@ == lowercase_of(s@),
{
    s.to_lowercase()
}

/// Appends one character to a string (`String::push`).
#[verifier::external_body]
pub(crate) fn push_char(s: &mut String, c: char)
    ensures
        final(s)@ == old(s)@.push(c),
{
    s.push(c)
}

/// Removes the last character of a string, if any (`String::pop`).
#[verifier::external_body]
pub(crate) fn pop_char(s: &mut String) -> (last: Option<char>)
    ensures
        old(s)@.len() == 0 ==> last is None && final(s)@ == old(s)@,
        old(s)@.len() > 0 ==> last == Some(old(s)@.last()) && final(s)@ == old(s)@.drop_last(),
{
    s.pop()
}

/// Splits `text` at Unicode whitespace, dropping empty pieces
/// (what `str::split_whitespace` yields).
pub fn split_whitespace(text: &str) -> (out: Vec<String>)
    ensures
        views(out@) == words(text@),
{
    let mut out: Vec<String> = Vec::new();
    let mut cur: String = String::new();
    let ghost mut seen: Seq<char> = seq![];
    for c in it: text.chars()
        invariant
            it.seq() == text@,
            seen == text@.take(it.index() as int),
            views(out@) == scan_words(seen).0,
            cur@ == scan_words(seen).1,
    {
        proof {
            assert(text@.take(it.index() + 1).drop_last() =~= seen);
            seen = text@.take(it.index() + 1);
        }
        if is_whitespace(c) {
            if !cur.as_str().is_empty() {
                out.push(cur);
                cur = String::new();
                assert(views(out@) =~= scan_words(seen).0);
            }
        } else {
            push_char(&mut cur, c);
        }
    }
    if !cur.as_str().is_empty() {
        out.push(cur);
        assert(views(out@) =~= words(text@)) by {
            assert(seen =~= text@);
        }
    } else {
        assert(seen =~= text@);
    }
    out
}

/// A line without its ending: the final `\n` removed, then a `\r` before
/// it removed too.
pub open spec fn strip_ending(line: Seq<char>) -> Seq<char> {
    if line.len() > 0 && line.last() == '\n' {
        let body = line.drop_last();
        if body.len() > 0 && body.last() == '\r' {
            body.drop_last()
        } else {
            body
        }
    } else {
        line
    }
}

/// Scanning `s` from the left: the lines completed so far (each ended by
/// `\n`, kept), and the line being read.
pub open spec fn scan_lines(s: Seq<char>) -> (Seq<Seq<char>>, Seq<char>)
    decreases s.len(),
{
    if s.len() == 0 {
        (seq![], seq![])
    } else {
        let (done, cur) = scan_lines(s.drop_last());
        let c = s.last();
        if c == '\n' {
            (done.push(cur.push(c)), seq![])
        } else {
            (done, cur.push(c))
        }
    }
}

/// The lines of `s` as `str::lines` yields them: split after every `\n`,
/// the last piece kept only if non-empty, and every line stripped of its
/// `\n` or `\r\n` ending.
pub open spec fn lines(s: Seq<char>) -> Seq<Seq<char>> {
    let (done, cur) = scan_lines(s);
    let pieces = if cur.len() > 0 {
        done.push(cur)
    } else {
        done
    };
    pieces.map_values(|l: Seq<char>| strip_ending(l))
}

/// Removes a line ending from a line that has one.
fn strip_line_ending(line: &mut String)
    ensures
        final(line)@ == strip_ending(old(line)@),
{
    let ghost orig = line@;
    let last: Option<char> = pop_char(line);
    match last {
        None => {},
        Some(c) => {
            if c == '\n' {
                let before_newline: Option<char> = pop_char(line);
                match before_newline {
                    Some(d) => {
                        if d != '\r' {
                            push_char(line, d);
                            assert(line@ =~= orig.drop_last());
                        }
                    },
                    None => {},
                }
            } else {
                push_char(line, c);
                assert(line@ =~= orig);
            }
        },
    }
}

/// Splits `text` into lines (what `str::lines` yields).
pub fn split_lines(text: &str) -> (out: Vec<String>)
    ensures
        views(out@) == lines(text@),
{
    let mut out: Vec<String> = Vec::new();
    let mut cur: String = String::new();
    let ghost mut seen: Seq<char> = seq![];
    for c in it: text.chars()
        invariant
            it.seq() == text@,
            seen == text@.take(it.index() as int),
            views(out@) == scan_lines(seen).0.map_values(|l: Seq<char>| strip_ending(l)),
            cur@ == scan_lines(seen).1,
    {
        proof {
            assert(text@.take(it.index() + 1).drop_last() =~= seen);
            seen = text@.take(it.index() + 1);
        }
        push_char(&mut cur, c);
        if c == '\n' {
            let ghost prev = out@;
            let ghost full = cur@;
            strip_line_ending(&mut cur);
            out.push(cur);
            cur = String::new();
            assert(views(out@) =~= views(prev).push(strip_ending(full)));
            assert(views(out@) =~= scan_lines(seen).0.map_values(|l: Seq<char>| strip_ending(l)));
        }
    }
    assert(seen =~= text@);
    if !cur.as_str().is_empty() {
        let ghost prev = out@;
        let ghost full = cur@;
        strip_line_ending(&mut cur);
        out.push(cur);
        assert(views(out@) =~= views(prev).push(strip_ending(full)));
        assert(views(out@) =~= lines(text@));
    } else {
        assert(views(out@) =~= lines(text@));
    }
    out
}

/// Joins `parts[lo..hi]` with `sep` between neighbours.
pub fn join_range(parts: &Vec<String>, lo: usize, hi: usize, sep: &str) -> (out: String)
    requires
        lo <= hi <= parts@.len(),
    ensures
        out@ == join(views(parts@.subrange(lo as int, hi as int)), sep@),
{
    let mut out: String = String::new();
    let mut i: usize = lo;
    while i < hi
        invariant
            lo <= i <= hi <= parts@.len(),
            out@ == join(views(parts@.subrange(lo as int, i as int)), sep@),
        decreases hi - i,
    {
        let ghost before = views(parts@.subrange(lo as int, i as int));
        let ghost after = views(parts@.subrange(lo as int, i + 1));
        assert(after.drop_last() =~= before);
        assert(after.last() == parts@[i as int]@);
        if i > lo {
            out.append(sep);
        }
        out.append(parts[i].as_str());
        i = i + 1;
    }
    out
}

/// The character of decimal digit `d`.
pub open spec fn digit_char(d: nat) -> char {
    (48 + d) as char
}

/// The decimal digits of `n`, most significant first, without leading
/// zeros (`"0"` for zero).
pub open spec fn decimal_digits(n: nat) -> Seq<char>
    decreases n,
{
    if n < 10 {
        seq![digit_char(n)]
    } else {
        decimal_digits(n / 10).push(digit_char(n % 10))
    }
}

/// The decimal form of an integer, as `to_string` writes it: a minus sign
/// for negative numbers, then the digits of the magnitude.
pub open spec fn decimal(n: int) -> Seq<char> {
    if n < 0 {
        seq!['-'] + decimal_digits((-n) as nat)
    } else {
        decimal_digits(n as nat)
    }
}

proof fn lemma_digit_char(d: nat)
    requires
        d < 10,
    ensures
        digit_char(d) as u32 == 48 + d,
{
}

proof fn lemma_decimal_digits(n: nat)
    ensures
        decimal_digits(n).len() >= 1,
        forall|i: int|
            0 <= i < decimal_digits(n).len() ==> 48 <= #[trigger] (decimal_digits(n)[i] as u32)
                <= 57,
    decreases n,
{
    lemma_digit_char(n % 10);
    if n >= 10 {
        lemma_decimal_digits(n / 10);
    }
}

proof fn lemma_decimal_digits_injective(a: nat, b: nat)
    requires
        decimal_digits(a) == decimal_digits(b),
    ensures
        a == b,
    decreases a,
{
    lemma_decimal_digits(a);
    lemma_decimal_digits(b);
    lemma_digit_char(a % 10);
    lemma_digit_char(b % 10);
    if a >= 10 && b >= 10 {
        assert(decimal_digits(a).drop_last() =~= decimal_digits(a / 10));
        assert(decimal_digits(b).drop_last() =~= decimal_digits(b / 10));
        assert(decimal_digits(a).last() == digit_char(a % 10));
        assert(decimal_digits(b).last() == digit_char(b % 10));
        lemma_decimal_digits_injective(a / 10, b / 10);
        assert(a % 10 == b % 10);
    } else if a >= 10 {
        lemma_decimal_digits(a / 10);
    } else if b >= 10 {
        lemma_decimal_digits(b / 10);
    }
}

/// Different integers have different decimal forms, so a list of row ids
/// written out can be read back unambiguously.
pub proof fn law_decimal_injective(a: int, b: int)
    requires
        decimal(a) == decimal(b),
    ensures
        a == b,
{
    if a < 0 && b < 0 {
        assert(decimal(a).drop_first() =~= decimal_digits((-a) as nat));
        assert(decimal(b).drop_first() =~= decimal_digits((-b) as nat));
        lemma_decimal_digits_injective((-a) as nat, (-b) as nat);
    } else if a < 0 {
        lemma_decimal_digits(b as nat);
        assert(decimal(b)[0] as u32 >= 48);
        assert(decimal(a)[0] == '-');
    } else if b < 0 {
        lemma_decimal_digits(a as nat);
        assert(decimal(a)[0] as u32 >= 48);
        assert(decimal(b)[0] == '-');
    } else {
        lemma_decimal_digits_injective(a as nat, b as nat);
    }
}

/// Appends the decimal digits of `m` to `s`.
fn push_digits(s: &mut String, m: u64)
    ensures
        final(s)@ == old(s)@ + decimal_digits(m as nat),
    decreases m,
{
    if m >= 10 {
        push_digits(s, m / 10);
    }
    let d: u8 = (m % 10) as u8;
    let c: char = (48u8 + d) as char;
    assert(c == digit_char((m % 10) as nat));
    push_char(s, c);
}

/// Appends the decimal form of `n` to `s`.
pub fn push_decimal(s: &mut String, n: i64)
    ensures
        final(s)@ == old(s)@ + decimal(n as int),
{
    if n < 0 {
        push_char(s, '-');
        let magnitude: u64 = if n == i64::MIN {
            9223372036854775808u64
        } else {
            (0 - n) as u64
        };
        push_digits(s, magnitude);
        assert(s@ =~= old(s)@ + decimal(n as int));
    } else {
        push_digits(s, n as u64);
    }
}

} // verus!
