//! Character and string helpers shared by the renderers.
use vstd::prelude::*;

verus! {

/// The Unicode `White_Space` property, which `char::is_whitespace` tests.
pub open spec fn spec_is_whitespace(c: char) -> bool {
    let u = c as u32;
    ||| 0x09 <= u <= 0x0d
    ||| u == 0x20
    ||| u == 0x85
    ||| u == 0xa0
    ||| u == 0x1680
    ||| 0x2000 <= u <= 0x200a
    ||| u == 0x2028
    ||| u == 0x2029
    ||| u == 0x202f
    ||| u == 0x205f
    ||| u == 0x3000
}

/// Whether `c` has the Unicode `White_Space` property.
pub fn is_whitespace(c: char) -> (b: bool)
    ensures
        b == spec_is_whitespace(c),
{
    let u = c as u32;
    (0x09 <= u && u <= 0x0d) || u == 0x20 || u == 0x85 || u == 0xa0 || u == 0x1680 || (0x2000
        <= u && u <= 0x200a) || u == 0x2028 || u == 0x2029 || u == 0x202f || u == 0x205f || u
        == 0x3000
}

/// Appends one character to a string: `String::push`, whose documentation
/// says it appends the given char to the end of the string.
#[verifier::external_body]
pub(crate) fn push_char(s: &mut String, c: char)
    ensures
        final(s)@ == old(s)@.push(c),
{
    s.push(c);
}

/// The characters of a string slice, in order.
pub fn chars_of(s: &str) -> (v: Vec<char>)
    ensures
        v@ == s@,
{
    let mut v: Vec<char> = Vec::new();
    for c in it: s.chars()
        invariant
            v@ == it.seq().take(it.index() as int),
            it.seq() == s@,
    {
        v.push(c);
    }
    v
}

/// A string holding the given characters.
pub fn string_from_chars(cs: &Vec<char>) -> (s: String)
    ensures
        s@ == cs@,
{
    let mut s = String::new();
    let mut i: usize = 0;
    while i < cs.len()
        invariant
            i <= cs.len(),
            s@ == cs@.take(i as int),
        decreases cs.len() - i,
    {
        push_char(&mut s, cs[i]);
        i += 1;
        assert(s@ =~= cs@.take(i as int));
    }
    assert(cs@.take(cs.len() as int) =~= cs@);
    s
}

/// Appends the characters of `cs` to `s`.
pub fn push_chars(s: &mut String, cs: &Vec<char>)
    ensures
        final(s)@ == old(s)@ + cs@,
{
    let mut i: usize = 0;
    while i < cs.len()
        invariant
            i <= cs.len(),
            s@ == old(s)@ + cs@.take(i as int),
        decreases cs.len() - i,
    {
        push_char(s, cs[i]);
        i += 1;
        assert(s@ =~= old(s)@ + cs@.take(i as int));
    }
    assert(cs@.take(cs.len() as int) =~= cs@);
}

/// `n` copies of `c`.
pub open spec fn repeat_char(c: char, n: nat) -> Seq<char> {
    Seq::new(n, |_i: int| c)
}

/// A string of `n` copies of `c` (`str::repeat` on a one-character string).
pub fn repeated(c: char, n: usize) -> (s: String)
    ensures
        s@ == repeat_char(c, n as nat),
{
    let mut s = String::new();
    let mut i: usize = 0;
    while i < n
        invariant
            i <= n,
            s@ == repeat_char(c, i as nat),
        decreases n - i,
    {
        push_char(&mut s, c);
        i += 1;
        assert(s@ =~= repeat_char(c, i as nat));
    }
    s
}

/// The decimal digit character for `d < 10`.
pub open spec fn digit_char(d: nat) -> char {
    ((48 + d) as u32) as char
}

/// The decimal representation of `n`, without leading zeros.
pub open spec fn decimal(n: nat) -> Seq<char>
    decreases n,
{
    if n < 10 {
        seq![digit_char(n)]
    } else {
        decimal(n / 10).push(digit_char(n % 10))
    }
}

fn digit(d: usize) -> (c: char)
    requires
        d < 10,
    ensures
        c == digit_char(d as nat),
{
    if d == 0 { '0' }
    else if d == 1 { '1' }
    else if d == 2 { '2' }
    else if d == 3 { '3' }
    else if d == 4 { '4' }
    else if d == 5 { '5' }
    else if d == 6 { '6' }
    else if d == 7 { '7' }
    else if d == 8 { '8' }
    else { '9' }
}

/// Appends the decimal representation of `n` (`format!("{}", n)`).
pub fn push_decimal(s: &mut String, n: usize)
    ensures
        final(s)@ == old(s)@ + decimal(n as nat),
    decreases n,
{
    if n >= 10 {
        push_decimal(s, n / 10);
    }
    push_char(s, digit(n % 10));
    assert(s@ =~= old(s)@ + decimal(n as nat));
}

/// `10^k`.
pub open spec fn pow10(k: nat) -> nat
    decreases k,
{
    if k == 0 {
        1
    } else {
        10 * pow10((k - 1) as nat)
    }
}

/// A number below `10^k` has at most `k` digits (and always at least one).
pub proof fn lemma_decimal_len(n: nat, k: nat)
    requires
        n < pow10(k),
        k >= 1,
    ensures
        1 <= decimal(n).len() <= k,
    decreases k,
{
    if n >= 10 {
        assert(k >= 2) by {
            if k == 1 {
                assert(pow10(1) == 10) by {
                    assert(pow10(0) == 1);
                }
            }
        }
        assert(n / 10 < pow10((k - 1) as nat));
        lemma_decimal_len(n / 10, (k - 1) as nat);
    }
}

/// `usize` values have at most 20 decimal digits.
pub proof fn lemma_usize_decimal_len(n: usize)
    ensures
        1 <= decimal(n as nat).len() <= 20,
{
    reveal_with_fuel(pow10, 21);
    assert(pow10(20) == 100000000000000000000nat);
    lemma_decimal_len(n as nat, 20);
}

/// The parts joined with `sep` between consecutive parts (`slice::join`).
pub open spec fn join(parts: Seq<Seq<char>>, sep: Seq<char>) -> Seq<char>
    decreases parts.len(),
{
    if parts.len() == 0 {
        Seq::empty()
    } else if parts.len() == 1 {
        parts[0]
    } else {
        join(parts.drop_last(), sep) + sep + parts.last()
    }
}

/// The joined length: every part plus `sep` between parts.
pub open spec fn join_len(parts: Seq<Seq<char>>, sep_len: nat) -> nat
    decreases parts.len(),
{
    if parts.len() == 0 {
        0
    } else {
        join_len(parts.drop_last(), sep_len) + parts.last().len() + sep_len
    }
}

pub proof fn lemma_join_len(parts: Seq<Seq<char>>, sep: Seq<char>)
    ensures
        join(parts, sep).len() <= join_len(parts, sep.len()),
    decreases parts.len(),
{
    if parts.len() > 1 {
        lemma_join_len(parts.drop_last(), sep);
    } else if parts.len() == 1 {
        assert(parts.drop_last().len() == 0);
    }
}

pub open spec fn strings_view(v: Seq<String>) -> Seq<Seq<char>> {
    v.map_values(|s: String| s@)
}

/// The strings of `parts` joined with `sep` between them.
pub fn join_strings(parts: &Vec<String>, sep: &Vec<char>) -> (s: String)
    ensures
        s@ == join(strings_view(parts@), sep@),
{
    let ghost pv = strings_view(parts@);
    let mut s = String::new();
    let mut i: usize = 0;
    while i < parts.len()
        invariant
            i <= parts.len(),
            pv == strings_view(parts@),
            s@ == join(pv.take(i as int), sep@),
        decreases parts.len() - i,
    {
        let ghost before = s@;
        if i > 0 {
            push_chars(&mut s, sep);
        }
        let cs = chars_of(parts[i].as_str());
        push_chars(&mut s, &cs);
        proof {
            let q = pv.take(i + 1);
            assert(q.drop_last() =~= pv.take(i as int));
            assert(q.last() == parts@[i as int]@);
            if i == 0 {
                assert(before =~= Seq::<char>::empty());
                assert(s@ =~= q[0]);
            } else {
                assert(s@ =~= before + sep@ + q.last());
            }
        }
        i += 1;
    }
    assert(pv.take(parts.len() as int) =~= pv);
    s
}

/// A line without one trailing carriage return.
pub open spec fn strip_cr(l: Seq<char>) -> Seq<char> {
    if l.len() > 0 && l.last() == '\r' {
        l.drop_last()
    } else {
        l
    }
}

/// The finished lines of `s` and the line still open at its end.
pub open spec fn lines_state(s: Seq<char>) -> (Seq<Seq<char>>, Seq<char>)
    decreases s.len(),
{
    if s.len() == 0 {
        (Seq::empty(), Seq::empty())
    } else {
        let (done, cur) = lines_state(s.drop_last());
        if s.last() == '\n' {
            (done.push(strip_cr(cur)), Seq::empty())
        } else {
            (done, cur.push(s.last()))
        }
    }
}

/// The lines of `s` (`str::lines`): split at `\n`, each terminated line
/// without a trailing `\r`, and no empty line after a final `\n`.
pub open spec fn text_lines(s: Seq<char>) -> Seq<Seq<char>> {
    let (done, cur) = lines_state(s);
    if cur.len() > 0 {
        done.push(cur)
    } else {
        done
    }
}

pub proof fn lemma_lines_state_len(s: Seq<char>)
    ensures
        lines_state(s).1.len() <= s.len(),
        forall|i: int| 0 <= i < lines_state(s).0.len() ==> #[trigger] lines_state(s).0[i].len() <= s.len(),
    decreases s.len(),
{
    if s.len() > 0 {
        lemma_lines_state_len(s.drop_last());
    }
}

pub proof fn lemma_text_lines_len(s: Seq<char>)
    ensures
        forall|i: int| 0 <= i < text_lines(s).len() ==> #[trigger] text_lines(s)[i].len() <= s.len(),
{
    lemma_lines_state_len(s);
}

/// The lines of `s` (see `text_lines`).
pub fn split_lines(s: &Vec<char>) -> (ls: Vec<Vec<char>>)
    ensures
        ls@.map_values(|l: Vec<char>| l@) == text_lines(s@),
{
    let mut done: Vec<Vec<char>> = Vec::new();
    let mut cur: Vec<char> = Vec::new();
    let mut i: usize = 0;
    while i < s.len()
        invariant
            i <= s.len(),
            lines_state(s@.take(i as int)) == (done@.map_values(|l: Vec<char>| l@), cur@),
        decreases s.len() - i,
    {
        let c = s[i];
        proof {
            let q = s@.take(i + 1);
            assert(q.drop_last() =~= s@.take(i as int));
            assert(q.last() == c);
        }
        if c == '\n' {
            let ghost cv = cur@;
            if cur.len() > 0 && cur[cur.len() - 1] == '\r' {
                cur.pop();
            }
            assert(cur@ =~= strip_cr(cv));
            let ghost dv = done@.map_values(|l: Vec<char>| l@);
            let line = cur;
            cur = Vec::new();
            done.push(line);
            assert(done@.map_values(|l: Vec<char>| l@) =~= dv.push(strip_cr(cv)));
            assert(cur@ =~= Seq::<char>::empty());
        } else {
            cur.push(c);
        }
        i += 1;
    }
    assert(s@.take(s.len() as int) =~= s@);
    if cur.len() > 0 {
        let ghost dv = done@.map_values(|l: Vec<char>| l@);
        let ghost cv = cur@;
        done.push(cur);
        assert(done@.map_values(|l: Vec<char>| l@) =~= dv.push(cv));
    }
    done
}

/// Lines, each followed by a line feed.
pub open spec fn terminated(ls: Seq<Seq<char>>) -> Seq<char>
    decreases ls.len(),
{
    if ls.len() == 0 {
        Seq::empty()
    } else {
        terminated(ls.drop_last()) + ls.last().push('\n')
    }
}

pub open spec fn has_char(s: Seq<char>, c: char) -> bool {
    exists|i: int| 0 <= i < s.len() && s[i] == c
}

proof fn lemma_lines_state_text(s: Seq<char>)
    ensures
        forall|i: int| 0 <= i < lines_state(s).0.len() ==> !has_char(#[trigger] lines_state(s).0[i], '\n'),
        !has_char(lines_state(s).1, '\n'),
        !has_char(s, '\r') ==> s == terminated(lines_state(s).0) + lines_state(s).1,
    decreases s.len(),
{
    if s.len() > 0 {
        let p = s.drop_last();
        lemma_lines_state_text(p);
        let (done, cur) = lines_state(p);
        let c = s.last();
        if !has_char(s, '\r') {
            assert(!has_char(p, '\r')) by {
                if has_char(p, '\r') {
                    let i = choose|i: int| 0 <= i < p.len() && p[i] == '\r';
                    assert(s[i] == '\r');
                }
            }
        }
        if c == '\n' {
            let nd = done.push(strip_cr(cur));
            assert forall|i: int| 0 <= i < nd.len() implies !has_char(#[trigger] nd[i], '\n') by {
                if i < done.len() {
                    assert(nd[i] == done[i]);
                } else {
                    if has_char(strip_cr(cur), '\n') {
                        let j = choose|j: int| 0 <= j < strip_cr(cur).len() && strip_cr(cur)[j] == '\n';
                        assert(cur[j] == '\n');
                    }
                }
            }
            assert(!has_char(Seq::<char>::empty(), '\n'));
            if !has_char(s, '\r') {
                if cur.len() > 0 && cur.last() == '\r' {
                    assert(has_char(s, '\r')) by {
                        assert(s[p.len() - 1] == '\r');
                    }
                }
                assert(strip_cr(cur) == cur);
                assert(nd.drop_last() =~= done);
                assert(nd.last() == cur);
                assert(terminated(nd) == terminated(done) + cur.push('\n'));
                assert(s =~= p.push(c));
                assert(p == terminated(done) + cur);
                assert(s =~= terminated(nd) + Seq::<char>::empty());
            }
        } else {
            let nc = cur.push(c);
            assert(!has_char(nc, '\n')) by {
                if has_char(nc, '\n') {
                    let j = choose|j: int| 0 <= j < nc.len() && nc[j] == '\n';
                    if j < cur.len() {
                        assert(cur[j] == '\n');
                    }
                }
            }
            if !has_char(s, '\r') {
                assert(s =~= p.push(c));
                assert(p == terminated(done) + cur);
                assert(s =~= terminated(done) + nc);
            }
        }
    }
}

/// No line of `s` holds a line feed, and for a text without carriage
/// returns the lines, each followed by a line feed, give back the text
/// (with a line feed added at its end when it had none).
pub proof fn lines_give_back_the_text(s: Seq<char>)
    ensures
        forall|i: int| 0 <= i < text_lines(s).len() ==> !has_char(#[trigger] text_lines(s)[i], '\n'),
        !has_char(s, '\r') ==> terminated(text_lines(s)) == if s.len() == 0 || s.last() == '\n' {
            s
        } else {
            s.push('\n')
        },
{
    lemma_lines_state_text(s);
    let (done, cur) = lines_state(s);
    if cur.len() > 0 {
        let all = done.push(cur);
        assert forall|i: int| 0 <= i < all.len() implies !has_char(#[trigger] all[i], '\n') by {
            if i < done.len() {
                assert(all[i] == done[i]);
            }
        }
        assert(all.drop_last() =~= done);
        if !has_char(s, '\r') {
            assert(s.len() > 0);
            lemma_lines_state_last(s);
            assert(terminated(all) =~= s.push('\n'));
        }
    } else if !has_char(s, '\r') {
        assert(s =~= terminated(done) + cur);
        if s.len() > 0 {
            lemma_lines_state_last(s);
        }
    }
}

proof fn lemma_lines_state_last(s: Seq<char>)
    requires
        s.len() > 0,
    ensures
        (lines_state(s).1.len() == 0) == (s.last() == '\n'),
{
    let (done, cur) = lines_state(s.drop_last());
}

} // verus!
