//! The source text and the compile options of a device program.

use vstd::prelude::*;
use vstd::string::*;

verus! {

/// What a line that is left out of the program starts with.
pub const DIRECTIVE: [char; 9] = ['#', 'i', 'n', 'c', 'l', 'u', 'd', 'e', ' '];

/// Where the line that starts at `i` ends: at its line feed or at the end of the text.
pub open spec fn line_end(s: Seq<char>, i: int) -> int
    decreases s.len() - i,
{
    if i < 0 || i >= s.len() || s[i] == '\n' {
        i
    } else {
        line_end(s, i + 1)
    }
}

/// The line from `i` to `e`, without the carriage return that may stand before its
/// line feed.
pub open spec fn line_text(s: Seq<char>, i: int, e: int) -> Seq<char> {
    if e < s.len() && e > i && s[e - 1] == '\r' {
        s.subrange(i, e - 1)
    } else {
        s.subrange(i, e)
    }
}

/// The line is to be left out.
pub open spec fn is_directive(line: Seq<char>) -> bool {
    line.len() >= 9 && line.take(9) == DIRECTIVE@
}

/// The text from `i` on, line by line, each line closed by a line feed, without the
/// lines to be left out.
pub open spec fn cleaned(s: Seq<char>, i: int) -> Seq<char>
    decreases s.len() - i,
{
    if i < 0 || i >= s.len() {
        Seq::empty()
    } else {
        let e = line_end(s, i);
        let line = line_text(s, i, e);
        let kept = if is_directive(line) {
            Seq::empty()
        } else {
            line.push('\n')
        };
        if i <= e < s.len() {
            kept + cleaned(s, e + 1)
        } else {
            kept
        }
    }
}

/// The cleaned texts of the first `n` sources, joined.
pub open spec fn program_text(sources: Seq<&str>, n: int) -> Seq<char>
    decreases n,
{
    if n <= 0 {
        Seq::empty()
    } else {
        program_text(sources, n - 1) + cleaned(sources[n - 1]@, 0)
    }
}

/// A line does not end before it starts.
proof fn lemma_line_end(s: Seq<char>, i: int)
    requires
        0 <= i <= s.len(),
    ensures
        i <= line_end(s, i) <= s.len(),
        line_end(s, i) < s.len() ==> s[line_end(s, i)] == '\n',
    decreases s.len() - i,
{
    if i < s.len() && s[i] != '\n' {
        lemma_line_end(s, i + 1);
    }
}

/// The characters of a text.
fn characters(s: &str) -> (v: Vec<char>)
    ensures
        v@ == s@,
{
    let mut v: Vec<char> = Vec::new();
    for c in it: s.chars()
        invariant
            it.seq() == s@,
            v@ == s@.take(it.index()),
    {
        assert(s@.take(it.index() + 1) =~= s@.take(it.index()).push(c));
        v.push(c);
    }
    assert(s@.take(s@.len() as int) =~= s@);
    v
}

/// Tests whether the line from `i` to `e` is to be left out.
fn directive_at(text: &Vec<char>, i: usize, e: usize) -> (b: bool)
    requires
        i <= e <= text@.len(),
    ensures
        b == is_directive(text@.subrange(i as int, e as int)),
{
    let ghost line = text@.subrange(i as int, e as int);
    if e - i < 9 {
        return false;
    }
    let mut k: usize = 0;
    while k < 9
        invariant
            i + 9 <= e <= text@.len(),
            k <= 9,
            line == text@.subrange(i as int, e as int),
            forall|j: int| 0 <= j < k ==> #[trigger] line.take(9)[j] == DIRECTIVE@[j],
        decreases 9 - k,
    {
        if text[i + k] != DIRECTIVE[k] {
            assert(line.take(9)[k as int] == text@[i + k]);
            return false;
        }
        k = k + 1;
    }
    assert(line.take(9) =~= DIRECTIVE@);
    true
}

/// Appends a source to the program, line by line, leaving out the lines that pull in
/// other files.
fn append_source(out: &mut String, source: &str)
    ensures
        final(out)@ == old(out)@ + cleaned(source@, 0),
{
    let text: Vec<char> = characters(source);
    let ghost s = source@;
    let n: usize = text.len();
    let mut i: usize = 0;
    let ghost start = out@;
    while i < n
        invariant
            text@ == s,
            s == source@,
            n == s.len(),
            i <= n,
            start + cleaned(s, 0) == out@ + cleaned(s, i as int),
        decreases n - i,
    {
        let mut e: usize = i;
        while e < n && text[e] != '\n'
            invariant
                text@ == s,
                n == s.len(),
                i <= e <= n,
                line_end(s, i as int) == line_end(s, e as int),
            decreases n - e,
        {
            e = e + 1;
        }
        proof {
            lemma_line_end(s, i as int);
            assert(line_end(s, i as int) == e);
        }
        let stop: usize = if e < n && e > i && text[e - 1] == '\r' {
            e - 1
        } else {
            e
        };
        let ghost line = line_text(s, i as int, e as int);
        assert(line == s.subrange(i as int, stop as int));
        let ghost before = out@;
        if !directive_at(&text, i, stop) {
            out.append(source.substring_char(i, stop));
            out.append("\n");
            proof {
                reveal_strlit("\n");
                assert("\n"@ =~= seq!['\n']);
                assert(out@ =~= before + line.push('\n'));
                assert((before + line.push('\n')) + cleaned(s, e + 1) =~= before + (line.push('\n')
                    + cleaned(s, e + 1)));
                assert((before + line.push('\n')) + cleaned(s, n as int) =~= before + line.push(
                    '\n',
                ));
            }
        } else {
            assert(before + (Seq::<char>::empty() + cleaned(s, e + 1)) =~= before + cleaned(
                s,
                e + 1,
            ));
            assert(before + cleaned(s, n as int) =~= before + Seq::<char>::empty());
        }
        if e < n {
            i = e + 1;
        } else {
            i = e;
        }
    }
    assert(out@ + cleaned(s, i as int) =~= out@);
}

/// The program made of the given sources, in their order: their lines, without those
/// that pull in other files.
pub fn csr_program_source(sources: &[&str]) -> (out: String)
    ensures
        out@ == program_text(sources@, sources@.len() as int),
{
    let mut out: String = String::new();
    let mut k: usize = 0;
    while k < sources.len()
        invariant
            k <= sources@.len(),
            out@ == program_text(sources@, k as int),
        decreases sources@.len() - k,
    {
        append_source(&mut out, sources[k]);
        k = k + 1;
    }
    out
}

/// The decimal digits of a number.
pub open spec fn decimal(n: nat) -> Seq<char>
    decreases n,
{
    if n < 10 {
        seq![digit(n)]
    } else {
        decimal(n / 10).push(digit(n % 10))
    }
}

/// The digit of a number below ten.
pub open spec fn digit(d: nat) -> char {
    (('0' as nat) + d) as char
}

/// The text of a digit.
fn digit_text(d: usize) -> (s: &'static str)
    requires
        d < 10,
    ensures
        s@ == seq![digit(d as nat)],
{
    proof {
        reveal_strlit("0");
        reveal_strlit("1");
        reveal_strlit("2");
        reveal_strlit("3");
        reveal_strlit("4");
        reveal_strlit("5");
        reveal_strlit("6");
        reveal_strlit("7");
        reveal_strlit("8");
        reveal_strlit("9");
    }
    let s: &'static str = match d {
        0 => "0",
        1 => "1",
        2 => "2",
        3 => "3",
        4 => "4",
        5 => "5",
        6 => "6",
        7 => "7",
        8 => "8",
        _ => "9",
    };
    assert(s@ =~= seq![digit(d as nat)]);
    s
}

/// Appends the decimal digits of a number.
fn append_decimal(out: &mut String, n: usize)
    ensures
        final(out)@ == old(out)@ + decimal(n as nat),
    decreases n,
{
    let ghost start = out@;
    if n < 10 {
        out.append(digit_text(n));
    } else {
        append_decimal(out, n / 10);
        let ghost mid = out@;
        out.append(digit_text(n % 10));
        assert(out@ =~= start + decimal(n as nat));
    }
}

/// The value of [`csr_compile_options`].
pub open spec fn compile_options(nbins: nat, nimage: nat) -> Seq<char> {
    "-Dcl_khr_fp64=0 -D NBINS="@ + decimal(nbins) + " -D NIMAGE="@ + decimal(nimage)
}

/// The compile options for a program of `nbins` bins and `nimage` pixels.
pub fn csr_compile_options(nbins: usize, nimage: usize) -> (out: String)
    ensures
        out@ == "-Dcl_khr_fp64=0 -D NBINS="@ + decimal(nbins as nat) + " -D NIMAGE="@ + decimal(
            nimage as nat,
        ),
        out@ == compile_options(nbins as nat, nimage as nat),
{
    let mut out: String = String::from_str("-Dcl_khr_fp64=0 -D NBINS=");
    append_decimal(&mut out, nbins);
    out.append(" -D NIMAGE=");
    append_decimal(&mut out, nimage);
    out
}

/// `id` is the device to use.
pub open spec fn is_chosen(types: Seq<u64>, prefer_gpu: bool, id: Option<usize>) -> bool {
    match id {
        None => types.len() == 0,
        Some(i) => {
            &&& i < types.len()
            &&& if prefer_gpu && types.contains(GPU) {
                types[i as int] == GPU && forall|k: int| 0 <= k < i ==> #[trigger] types[k] != GPU
            } else {
                i == 0
            }
        },
    }
}

/// The device to use: the first of type `GPU` where one is preferred and there is
/// one, else the first.
pub fn choose_device(types: &[u64], prefer_gpu: bool) -> (id: Option<usize>)
    ensures
        types@.len() == 0 <==> id is None,
        id is Some && prefer_gpu && types@.contains(GPU) ==> types@[id->0 as int] == GPU
            && forall|k: int| 0 <= k < id->0 ==> #[trigger] types@[k] != GPU,
        id is Some && !(prefer_gpu && types@.contains(GPU)) ==> id->0 == 0,
        id is Some ==> id->0 < types@.len(),
        is_chosen(types@, prefer_gpu, id),
{
    if types.len() == 0 {
        return None;
    }
    if prefer_gpu {
        let mut k: usize = 0;
        while k < types.len()
            invariant
                prefer_gpu,
                k <= types@.len(),
                forall|j: int| 0 <= j < k ==> #[trigger] types@[j] != GPU,
            decreases types@.len() - k,
        {
            if types[k] == GPU {
                assert(types@.contains(GPU));
                return Some(k);
            }
            k = k + 1;
        }
    }
    Some(0)
}

/// The device type of a graphics processor.
pub const GPU: u64 = 4;

/// A line of the text starts at `k`.
pub open spec fn starts_line(t: Seq<char>, k: int) -> bool {
    0 <= k <= t.len() && (k == 0 || t[k - 1] == '\n')
}

/// No line of the text is one to be left out, and the last line is closed.
pub open spec fn is_clean(t: Seq<char>) -> bool {
    &&& forall|k: int| #[trigger]
        starts_line(t, k) && k + 9 <= t.len() ==> t.subrange(k, k + 9) != DIRECTIVE@
    &&& t.len() > 0 ==> t.last() == '\n'
}

/// Clean texts joined are clean.
proof fn lemma_join_clean(a: Seq<char>, b: Seq<char>)
    requires
        is_clean(a),
        is_clean(b),
    ensures
        is_clean(a + b),
{
    let t = a + b;
    assert forall|k: int| #[trigger] starts_line(t, k) && k + 9 <= t.len() implies t.subrange(
        k,
        k + 9,
    ) != DIRECTIVE@ by {
        if k < a.len() {
            assert(starts_line(a, k));
            if k + 9 <= a.len() {
                assert(t.subrange(k, k + 9) =~= a.subrange(k, k + 9));
            } else {
                // The line feed that closes `a` would stand within the directive.
                let at = a.len() - 1 - k;
                assert(t.subrange(k, k + 9)[at] == '\n');
                assert(DIRECTIVE@[at] != '\n');
            }
        } else {
            let l = k - a.len();
            if l > 0 {
                assert(t[k - 1] == b[l - 1]);
            }
            assert(starts_line(b, l));
            assert(t.subrange(k, k + 9) =~= b.subrange(l, l + 9));
        }
    }
    if t.len() > 0 {
        if b.len() > 0 {
            assert(t.last() == b.last());
        } else {
            assert(t.last() == a.last());
        }
    }
}

/// A line has no line feed in it.
proof fn lemma_line_inner(s: Seq<char>, i: int, k: int)
    requires
        0 <= i <= k < line_end(s, i),
        i <= s.len(),
    ensures
        k < s.len(),
        s[k] != '\n',
    decreases k - i,
{
    lemma_line_end(s, i);
    if i < k {
        lemma_line_inner(s, i + 1, k);
    }
}

/// A kept line, closed by its line feed, is clean.
proof fn lemma_kept_line_clean(s: Seq<char>, i: int)
    requires
        0 <= i < s.len(),
        !is_directive(line_text(s, i, line_end(s, i))),
    ensures
        is_clean(line_text(s, i, line_end(s, i)).push('\n')),
{
    let e = line_end(s, i);
    lemma_line_end(s, i);
    let line = line_text(s, i, e);
    let t = line.push('\n');
    assert forall|k: int| #[trigger] starts_line(t, k) && k + 9 <= t.len() implies t.subrange(
        k,
        k + 9,
    ) != DIRECTIVE@ by {
        if k > 0 {
            lemma_line_inner(s, i, i + k - 1);
        } else if line.len() >= 9 {
            assert(t.subrange(0, 9) =~= line.take(9));
        } else {
            assert(t.subrange(0, 9)[8] == '\n');
        }
    }
}

/// The cleaned text of a source is clean.
proof fn lemma_cleaned_is_clean(s: Seq<char>, i: int)
    requires
        0 <= i,
    ensures
        is_clean(cleaned(s, i)),
    decreases s.len() - i,
{
    if i < s.len() {
        let e = line_end(s, i);
        lemma_line_end(s, i);
        let line = line_text(s, i, e);
        let kept = if is_directive(line) {
            Seq::empty()
        } else {
            line.push('\n')
        };
        if !is_directive(line) {
            lemma_kept_line_clean(s, i);
        }
        if e < s.len() {
            lemma_cleaned_is_clean(s, e + 1);
            lemma_join_clean(kept, cleaned(s, e + 1));
        }
    }
}

/// No line of a program pulls in another file.
pub proof fn lemma_program_pulls_in_nothing(sources: Seq<&str>, n: int)
    requires
        n <= sources.len(),
    ensures
        is_clean(program_text(sources, n)),
    decreases n,
{
    if n > 0 {
        lemma_program_pulls_in_nothing(sources, n - 1);
        lemma_cleaned_is_clean(sources[n - 1]@, 0);
        lemma_join_clean(program_text(sources, n - 1), cleaned(sources[n - 1]@, 0));
    }
}

/// A device is chosen where there is one. It is a graphics processor where one is preferred
/// and there is one, and no device before it would have done as well.
pub proof fn lemma_chosen_device(types: Seq<u64>, prefer_gpu: bool, id: Option<usize>, k: int)
    requires
        is_chosen(types, prefer_gpu, id),
        0 <= k < types.len(),
    ensures
        id is Some && id->0 < types.len(),
        prefer_gpu && types[k] == 4 ==> types[id->0 as int] == 4 && id->0 <= k,
        !prefer_gpu ==> id->0 == 0,
        id->0 != 0 ==> prefer_gpu && types[id->0 as int] == 4,
{
}

proof fn lemma_line_end_is(s: Seq<char>, i: int, e: int)
    requires
        0 <= i <= e <= s.len(),
        e < s.len() ==> s[e] == '\n',
        forall|k: int| i <= k < e ==> #[trigger] s[k] != '\n',
    ensures
        line_end(s, i) == e,
    decreases e - i,
{
    if i < e {
        assert(s[i] != '\n');
        lemma_line_end_is(s, i + 1, e);
    }
}

proof fn lemma_cleaned_shift(s: Seq<char>, t: Seq<char>, i: int)
    requires
        0 <= i,
    ensures
        cleaned(s + t, s.len() + i) == cleaned(t, i),
    decreases t.len() - i,
{
    let u = s + t;
    let n = s.len() as int;
    if i < t.len() {
        let e = line_end(t, i);
        lemma_line_end(t, i);
        assert forall|k: int| n + i <= k < n + e implies #[trigger] u[k] != '\n' by {
            lemma_line_inner(t, i, k - n);
            assert(u[k] == t[k - n]);
        }
        lemma_line_end_is(u, n + i, n + e);
        assert(u.subrange(n + i, n + e) =~= t.subrange(i, e));
        if e > i {
            assert(u[n + e - 1] == t[e - 1]);
            assert(u.subrange(n + i, n + e - 1) =~= t.subrange(i, e - 1));
        }
        assert(line_text(u, n + i, n + e) == line_text(t, i, e));
        if e < t.len() {
            lemma_cleaned_shift(s, t, e + 1);
            assert(n + (e + 1) == (n + e) + 1);
        }
    }
}

proof fn lemma_cleaned_front(s: Seq<char>, t: Seq<char>, i: int)
    requires
        0 <= i <= s.len(),
        s.len() > 0,
        s.last() == '\n',
    ensures
        cleaned(s + t, i) == cleaned(s, i) + cleaned(t, 0),
    decreases s.len() - i,
{
    let u = s + t;
    let n = s.len() as int;
    if i == n {
        lemma_cleaned_shift(s, t, 0);
        assert(cleaned(s, i) + cleaned(t, 0) =~= cleaned(t, 0));
    } else {
        let e = line_end(s, i);
        lemma_line_end(s, i);
        if e == n {
            lemma_line_inner(s, i, n - 1);
        }
        assert forall|k: int| i <= k < e implies #[trigger] u[k] != '\n' by {
            lemma_line_inner(s, i, k);
        }
        lemma_line_end_is(u, i, e);
        assert(u.subrange(i, e) =~= s.subrange(i, e));
        if e > i {
            assert(u.subrange(i, e - 1) =~= s.subrange(i, e - 1));
        }
        let line = line_text(s, i, e);
        assert(line_text(u, i, e) == line);
        lemma_cleaned_front(s, t, e + 1);
        let kept = if is_directive(line) {
            Seq::empty()
        } else {
            line.push('\n')
        };
        assert(kept + (cleaned(s, e + 1) + cleaned(t, 0)) =~= (kept + cleaned(s, e + 1)) + cleaned(
            t,
            0,
        ));
    }
}

/// Two texts in turn are cleaned one after the other, where the first ends with a line
/// feed.
pub proof fn lemma_cleaned_in_turn(s: Seq<char>, t: Seq<char>)
    requires
        s.len() > 0 ==> s.last() == '\n',
    ensures
        cleaned(s + t, 0) == cleaned(s, 0) + cleaned(t, 0),
{
    if s.len() == 0 {
        assert(s + t =~= t);
        assert(cleaned(s, 0) + cleaned(t, 0) =~= cleaned(t, 0));
    } else {
        lemma_cleaned_front(s, t, 0);
    }
}

/// A line is left out where it starts with the words to look for, else it is kept, without
/// a carriage return at its end. A last line without a line feed is given one.
pub proof fn lemma_cleaned_line(line: Seq<char>)
    requires
        forall|k: int| 0 <= k < line.len() ==> #[trigger] line[k] != '\n',
    ensures
        ({
            let n = line.len() as int;
            let text = if n > 0 && line[n - 1] == '\r' {
                line.take(n - 1)
            } else {
                line
            };
            let left_out = |t: Seq<char>|
                t.len() >= 9 && forall|k: int| 0 <= k < 9 ==> #[trigger] t[k] == DIRECTIVE@[k];
            &&& cleaned(line.push('\n'), 0) == if left_out(text) {
                Seq::<char>::empty()
            } else {
                text.push('\n')
            }
            &&& n > 0 ==> cleaned(line, 0) == if left_out(line) {
                Seq::<char>::empty()
            } else {
                line.push('\n')
            }
        }),
{
    let n = line.len() as int;
    let s = line.push('\n');
    let text = if n > 0 && line[n - 1] == '\r' {
        line.take(n - 1)
    } else {
        line
    };
    assert forall|k: int| 0 <= k < n implies #[trigger] s[k] != '\n' by {
        assert(line[k] != '\n');
    }
    lemma_line_end_is(s, 0, n);
    assert(s.subrange(0, n) =~= line);
    if n > 0 {
        assert(s.subrange(0, n - 1) =~= line.take(n - 1));
        lemma_line_end_is(line, 0, n);
        assert(line.subrange(0, n) =~= line);
    }
    assert(line_text(s, 0, n) == text);
    lemma_directive(text);
    lemma_directive(line);
    assert(cleaned(s, n + 1) == Seq::<char>::empty());
    assert(text.push('\n') + Seq::<char>::empty() =~= text.push('\n'));
    assert(Seq::<char>::empty() + Seq::<char>::empty() =~= Seq::<char>::empty());
}

proof fn lemma_directive(t: Seq<char>)
    ensures
        is_directive(t) <==> t.len() >= 9 && forall|k: int|
            0 <= k < 9 ==> #[trigger] t[k] == DIRECTIVE@[k],
{
    if t.len() >= 9 {
        assert forall|k: int| 0 <= k < 9 implies t.take(9)[k] == t[k] by {}
        if forall|k: int| 0 <= k < 9 ==> #[trigger] t[k] == DIRECTIVE@[k] {
            assert(t.take(9) =~= DIRECTIVE@);
        }
        if t.take(9) == DIRECTIVE@ {
            assert forall|k: int| 0 <= k < 9 implies #[trigger] t[k] == DIRECTIVE@[k] by {
                assert(t.take(9)[k] == DIRECTIVE@[k]);
            }
        }
    }
}

/// The number that a text of digits stands for.
pub open spec fn value_of(text: Seq<char>) -> nat
    decreases text.len(),
{
    if text.len() == 0 {
        0
    } else {
        (10 * value_of(text.drop_last()) + (text.last() as nat - '0' as nat)) as nat
    }
}

/// The decimal digits of a number stand for that number, and there is no zero in front of
/// them.
pub proof fn lemma_decimal_value(n: nat)
    ensures
        value_of(decimal(n)) == n,
        decimal(n).len() > 0,
        n > 0 ==> decimal(n)[0] != '0',
        forall|k: int| 0 <= k < decimal(n).len() ==> '0' <= #[trigger] decimal(n)[k] <= '9',
    decreases n,
{
    if n < 10 {
        assert(decimal(n).drop_last() =~= Seq::<char>::empty());
        assert(value_of(Seq::<char>::empty()) == 0);
    } else {
        lemma_decimal_value(n / 10);
        let d = digit(n % 10);
        assert(decimal(n / 10).push(d).drop_last() =~= decimal(n / 10));
        assert(decimal(n)[0] == decimal(n / 10)[0]);
    }
}

/// The compile options end with the digits of the number of pixels, behind their name, and
/// before these stand the digits of the number of bins, behind theirs.
pub proof fn lemma_compile_options(nbins: nat, nimage: nat) -> (r: (Seq<char>, Seq<char>))
    ensures
        compile_options(nbins, nimage) == "-Dcl_khr_fp64=0 -D NBINS="@ + r.0 + " -D NIMAGE="@ + r.1,
        value_of(r.0) == nbins,
        value_of(r.1) == nimage,
        forall|k: int| 0 <= k < r.0.len() ==> '0' <= #[trigger] r.0[k] <= '9',
        forall|k: int| 0 <= k < r.1.len() ==> '0' <= #[trigger] r.1[k] <= '9',
{
    lemma_decimal_value(nbins);
    lemma_decimal_value(nimage);
    (decimal(nbins), decimal(nimage))
}

} // verus!
