use vstd::prelude::*;

verus! {

broadcast use vstd::seq::group_seq_axioms;

/// The characters with Unicode's `White_Space` property, which `str::trim`
/// removes.
pub open spec fn is_white_space(c: char) -> bool {
    ||| c == '\t' || c == '\n' || c == '\u{0B}' || c == '\u{0C}' || c == '\r' || c == ' '
    ||| c == '\u{85}' || c == '\u{A0}' || c == '\u{1680}'
    ||| ('\u{2000}' <= c && c <= '\u{200A}')
    ||| c == '\u{2028}' || c == '\u{2029}' || c == '\u{202F}' || c == '\u{205F}' || c == '\u{3000}'
}

/// `s` without the white space at its start.
pub open spec fn trim_start(s: Seq<char>) -> Seq<char>
    decreases s.len(),
{
    if s.len() > 0 && is_white_space(s[0]) {
        trim_start(s.drop_first())
    } else {
        s
    }
}

/// `s` without the white space at its end.
pub open spec fn trim_end(s: Seq<char>) -> Seq<char>
    decreases s.len(),
{
    if s.len() > 0 && is_white_space(s.last()) {
        trim_end(s.drop_last())
    } else {
        s
    }
}

/// `s` without the white space at either end.
pub open spec fn trim(s: Seq<char>) -> Seq<char> {
    trim_end(trim_start(s))
}

/// The label of the line of `/proc/self/status` that names the tracer.
pub open spec fn tracer_label() -> Seq<char> {
    seq!['T', 'r', 'a', 'c', 'e', 'r', 'P', 'i', 'd', ':']
}

/// Where the line that starts at `start` ends: at the next `\n`, or at the
/// end of `s`.
pub open spec fn line_end(s: Seq<char>, start: int) -> int
    decreases s.len() - start,
{
    if start < 0 || start >= s.len() {
        s.len() as int
    } else if s[start] == '\n' {
        start
    } else {
        line_end(s, start + 1)
    }
}

pub proof fn lemma_line_end(s: Seq<char>, start: int)
    requires
        0 <= start <= s.len(),
    ensures
        start <= line_end(s, start) <= s.len(),
        line_end(s, start) < s.len() ==> s[line_end(s, start)] == '\n',
        forall|j: int| start <= j < line_end(s, start) ==> s[j] != '\n',
    decreases s.len() - start,
{
    if start < s.len() && s[start] != '\n' {
        lemma_line_end(s, start + 1);
    }
}

/// What follows the tracer label on the first line, from the line that
/// starts at `start` on, that begins with it.
pub open spec fn tracer_value_from(s: Seq<char>, start: int) -> Option<Seq<char>>
    decreases s.len() - start,
{
    if start < 0 || start > s.len() {
        None
    } else {
        let end = line_end(s, start);
        let line = s.subrange(start, end);
        if line.len() >= 10 && line.take(10) == tracer_label() {
            Some(line.skip(10))
        } else if end >= s.len() {
            None
        } else {
            proof {
                lemma_line_end(s, start);
            }
            tracer_value_from(s, end + 1)
        }
    }
}

/// Whether a process status text reports a tracer: the first line that
/// starts with `TracerPid:` holds something other than `0` once trimmed.
pub open spec fn spec_reports_tracer(status: Seq<char>) -> bool {
    match tracer_value_from(status, 0) {
        Some(v) => trim(v) != seq!['0'],
        None => false,
    }
}

/// Whether `c` has Unicode's `White_Space` property.
pub fn is_white_space_char(c: char) -> (r: bool)
    ensures
        r == is_white_space(c),
{
    c == '\t' || c == '\n' || c == '\u{0B}' || c == '\u{0C}' || c == '\r' || c == ' ' || c
        == '\u{85}' || c == '\u{A0}' || c == '\u{1680}' || ('\u{2000}' <= c && c <= '\u{200A}')
        || c == '\u{2028}' || c == '\u{2029}' || c == '\u{202F}' || c == '\u{205F}' || c
        == '\u{3000}'
}

/// The characters of `status`, in order.
pub fn chars_of(status: &str) -> (r: Vec<char>)
    ensures
        r@ == status@,
{
    let mut chars: Vec<char> = Vec::new();
    for c in it: status.chars()
        invariant
            it.seq() == status@,
            chars@ == status@.take(it.index() as int),
    {
        chars.push(c);
        assert(chars@ =~= status@.take(it.index() + 1));
    }
    assert(chars@ =~= status@);
    chars
}

/// Whether the characters of `v` from `from` to `to`, trimmed, are `0`.
fn trims_to_zero(v: &Vec<char>, from: usize, to: usize) -> (r: bool)
    requires
        from <= to <= v@.len(),
    ensures
        r == (trim(v@.subrange(from as int, to as int)) == seq!['0']),
{
    let ghost s = v@.subrange(from as int, to as int);
    let mut a = from;
    while a < to && is_white_space_char(v[a])
        invariant
            from <= a <= to <= v@.len(),
            trim_start(s) == trim_start(v@.subrange(a as int, to as int)),
        decreases to - a,
    {
        assert(v@.subrange(a as int, to as int).drop_first() =~= v@.subrange(a + 1, to as int));
        a += 1;
    }
    assert(trim_start(v@.subrange(a as int, to as int)) == v@.subrange(a as int, to as int));
    let mut b = to;
    while b > a && is_white_space_char(v[b - 1])
        invariant
            from <= a <= b <= to <= v@.len(),
            trim(s) == trim_end(v@.subrange(a as int, b as int)),
        decreases b - a,
    {
        assert(v@.subrange(a as int, b as int).drop_last() =~= v@.subrange(a as int, b - 1));
        b -= 1;
    }
    let ghost t = v@.subrange(a as int, b as int);
    assert(trim_end(t) == t);
    if b - a == 1 && v[a] == '0' {
        assert(t =~= seq!['0']);
        true
    } else {
        assert(t.len() != 1 || t[0] != '0');
        false
    }
}

/// Whether a process status text, as `/proc/self/status` gives it, reports
/// that a tracer is attached.
pub fn reports_tracer(status: &str) -> (r: bool)
    ensures
        r == spec_reports_tracer(status@),
{
    let s = chars_of(status);
    let len = s.len();
    let mut start: usize = 0;
    let label = ['T', 'r', 'a', 'c', 'e', 'r', 'P', 'i', 'd', ':'];
    assert(label@ == tracer_label());
    while start <= len
        invariant
            s@ == status@,
            len == s@.len(),
            label@ == tracer_label(),
            start <= len + 1,
            start <= len ==> tracer_value_from(s@, 0) == tracer_value_from(s@, start as int),
            start > len ==> tracer_value_from(s@, 0) is None,
        decreases len + 1 - start,
    {
        let mut end = start;
        while end < len && s[end] != '\n'
            invariant
                start <= end <= len,
                len == s@.len(),
                forall|j: int| start <= j < end ==> s@[j] != '\n',
                line_end(s@, start as int) == line_end(s@, end as int),
            decreases len - end,
        {
            end += 1;
        }
        let ghost line = s@.subrange(start as int, end as int);
        let mut matches = end - start >= 10;
        let mut k: usize = 0;
        while matches && k < 10
            invariant
                k <= 10,
                matches ==> end - start >= 10,
                matches ==> forall|j: int| 0 <= j < k ==> s@[start + j] == label@[j],
                !matches ==> !(line.len() >= 10 && line.take(10) == tracer_label()),
                line == s@.subrange(start as int, end as int),
                label@ == tracer_label(),
                start <= end <= len,
                len == s@.len(),
            decreases (if matches { 11 - k } else { 0 }),
        {
            if s[start + k] != label[k] {
                assert(line.take(10)[k as int] != tracer_label()[k as int]);
                matches = false;
            } else {
                k += 1;
            }
        }
        if matches {
            assert(line.take(10) =~= tracer_label());
            assert(tracer_value_from(s@, start as int) == Some(line.skip(10)));
            assert(line.skip(10) =~= s@.subrange(start + 10, end as int));
            return !trims_to_zero(&s, start + 10, end);
        }
        if end >= len {
            return false;
        }
        start = end + 1;
    }
    false
}

proof fn lemma_trim_start_white(ws: Seq<char>, x: Seq<char>)
    requires
        forall|i: int| 0 <= i < ws.len() ==> is_white_space(#[trigger] ws[i]),
    ensures
        trim_start(ws + x) == trim_start(x),
    decreases ws.len(),
{
    if ws.len() == 0 {
        assert(ws + x =~= x);
    } else {
        assert((ws + x)[0] == ws[0]);
        assert((ws + x).drop_first() =~= ws.drop_first() + x);
        lemma_trim_start_white(ws.drop_first(), x);
    }
}

proof fn lemma_trim_end_white(x: Seq<char>, ws: Seq<char>)
    requires
        forall|i: int| 0 <= i < ws.len() ==> is_white_space(#[trigger] ws[i]),
    ensures
        trim_end(x + ws) == trim_end(x),
    decreases ws.len(),
{
    if ws.len() == 0 {
        assert(x + ws =~= x);
    } else {
        assert((x + ws).last() == ws.last());
        assert((x + ws).drop_last() =~= x + ws.drop_last());
        lemma_trim_end_white(x, ws.drop_last());
    }
}

/// A status whose first line is `TracerPid:` and a value, padded on either
/// side with white space other than a line end, reports a tracer exactly
/// when the value is not `0`. So `TracerPid:\t<n>\n` reports a tracer for
/// every process id `n` other than `0`, whatever follows that line.
pub proof fn lemma_first_tracer_line(ws1: Seq<char>, v: Seq<char>, ws2: Seq<char>, rest: Seq<char>)
    requires
        forall|i: int| 0 <= i < ws1.len() ==> is_white_space(#[trigger] ws1[i]) && ws1[i] != '\n',
        forall|i: int| 0 <= i < ws2.len() ==> is_white_space(#[trigger] ws2[i]) && ws2[i] != '\n',
        forall|i: int| 0 <= i < v.len() ==> !is_white_space(#[trigger] v[i]),
    ensures
        spec_reports_tracer(tracer_label() + ws1 + v + ws2 + seq!['\n'] + rest) == (v != seq!['0']),
{
    let label = tracer_label();
    let line = label + ws1 + v + ws2;
    let s = line + seq!['\n'] + rest;
    let k = line.len() as int;
    assert(label.len() == 10);
    assert forall|j: int| 0 <= j < k implies s[j] != '\n' by {
        assert(s[j] == line[j]);
        if j < 10 {
            assert(line[j] == label[j]);
        } else if j < 10 + ws1.len() {
            assert(line[j] == ws1[j - 10]);
        } else if j < 10 + ws1.len() + v.len() {
            assert(line[j] == v[j - 10 - ws1.len()]);
        } else {
            assert(line[j] == ws2[j - 10 - ws1.len() - v.len()]);
        }
    }
    assert(s[k] == '\n');
    lemma_line_end(s, 0);
    let e = line_end(s, 0);
    if e < k {
        assert(s[e] == '\n');
    }
    assert(e == k);
    assert(s.subrange(0, k) =~= line);
    assert(line.take(10) =~= label);
    let value = line.skip(10);
    assert(value =~= ws1 + (v + ws2));
    assert(tracer_value_from(s, 0) == Some(value));
    lemma_trim_start_white(ws1, v + ws2);
    if v.len() == 0 {
        assert(v + ws2 =~= ws2 + Seq::<char>::empty());
        lemma_trim_start_white(ws2, Seq::<char>::empty());
        assert(trim(value) =~= Seq::<char>::empty());
    } else {
        assert((v + ws2)[0] == v[0]);
        assert(trim_start(v + ws2) == v + ws2);
        lemma_trim_end_white(v, ws2);
        assert(v.last() == v[v.len() - 1]);
        assert(trim_end(v) == v);
        assert(trim(value) == v);
    }
}

} // verus!
