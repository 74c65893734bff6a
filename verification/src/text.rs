//! Character-level text utilities shared by the content hasher and the
//! HTML extractor: whitespace tests, line trimming, and whitespace
//! normalization (trim every line, drop blank lines, join with `\n`).

use vstd::prelude::*;

verus! {

/// The characters with the Unicode `White_Space` property, which is the set
/// that `char::is_whitespace` recognizes.
pub open spec fn is_space_char(c: char) -> bool {
    (c as u32) == 0x09 || (c as u32) == 0x0a || (c as u32) == 0x0b || (c as u32) == 0x0c
        || (c as u32) == 0x0d || (c as u32) == 0x20 || (c as u32) == 0x85 || (c as u32) == 0xa0
        || (c as u32) == 0x1680 || (0x2000 <= (c as u32) && (c as u32) <= 0x200a)
        || (c as u32) == 0x2028 || (c as u32) == 0x2029 || (c as u32) == 0x202f
        || (c as u32) == 0x205f || (c as u32) == 0x3000
}

/// Runtime test for `is_space_char`.
pub fn is_space(c: char) -> (r: bool)
    ensures
        r == is_space_char(c),
{
    let u: u32 = c as u32;
    u == 0x09 || u == 0x0a || u == 0x0b || u == 0x0c || u == 0x0d || u == 0x20 || u == 0x85
        || u == 0xa0 || u == 0x1680 || (0x2000 <= u && u <= 0x200a) || u == 0x2028 || u == 0x2029
        || u == 0x202f || u == 0x205f || u == 0x3000
}

/// `s` without its leading whitespace.
pub open spec fn trim_start_spec(s: Seq<char>) -> Seq<char>
    decreases s.len(),
{
    if s.len() > 0 && is_space_char(s[0]) {
        trim_start_spec(s.drop_first())
    } else {
        s
    }
}

/// `s` without its trailing whitespace.
pub open spec fn trim_end_spec(s: Seq<char>) -> Seq<char>
    decreases s.len(),
{
    if s.len() > 0 && is_space_char(s.last()) {
        trim_end_spec(s.drop_last())
    } else {
        s
    }
}

/// `s` without leading and trailing whitespace, as `str::trim` leaves it.
pub open spec fn trim_spec(s: Seq<char>) -> Seq<char> {
    trim_end_spec(trim_start_spec(s))
}

/// A sequence counts as trimmed when it is empty or neither starts nor ends
/// with whitespace.
pub open spec fn is_trimmed(s: Seq<char>) -> bool {
    s.len() == 0 || (!is_space_char(s[0]) && !is_space_char(s.last()))
}

proof fn lemma_trim_start_props(s: Seq<char>)
    ensures
        exists|k: int|
            0 <= k <= s.len() && trim_start_spec(s) == s.subrange(k, s.len() as int) && (forall|
                i: int,
            | 0 <= i < k ==> is_space_char(s[i])),
        trim_start_spec(s).len() > 0 ==> !is_space_char(trim_start_spec(s)[0]),
    decreases s.len(),
{
    if s.len() > 0 && is_space_char(s[0]) {
        lemma_trim_start_props(s.drop_first());
        let sub = s.drop_first();
        let k0 = choose|k0: int|
            0 <= k0 <= sub.len() && trim_start_spec(sub) == sub.subrange(k0, sub.len() as int) && (
            forall|i: int| 0 <= i < k0 ==> is_space_char(sub[i]));
        assert(sub.subrange(k0, sub.len() as int) == s.subrange(k0 + 1, s.len() as int));
        assert forall|i: int| 0 <= i < k0 + 1 implies is_space_char(s[i]) by {
            if i > 0 {
                assert(sub[i - 1] == s[i]);
            }
        }
        assert(0 <= k0 + 1 <= s.len() && trim_start_spec(s) == s.subrange(k0 + 1, s.len() as int)
            && (forall|i: int| 0 <= i < k0 + 1 ==> is_space_char(s[i])));
    } else {
        assert(s.subrange(0, s.len() as int) == s);
        assert(0 <= 0 <= s.len() && trim_start_spec(s) == s.subrange(0, s.len() as int) && (forall|
            i: int,
        | 0 <= i < 0 ==> is_space_char(s[i])));
    }
}

proof fn lemma_trim_end_props(s: Seq<char>)
    ensures
        exists|k: int|
            0 <= k <= s.len() && trim_end_spec(s) == s.subrange(0, k) && (forall|i: int|
                k <= i < s.len() ==> is_space_char(s[i])),
        trim_end_spec(s).len() > 0 ==> !is_space_char(trim_end_spec(s).last()),
        s.len() > 0 && !is_space_char(s[0]) && trim_end_spec(s).len() > 0 ==> !is_space_char(
            trim_end_spec(s)[0],
        ),
    decreases s.len(),
{
    if s.len() > 0 && is_space_char(s.last()) {
        lemma_trim_end_props(s.drop_last());
        let sub = s.drop_last();
        let k0 = choose|k0: int|
            0 <= k0 <= sub.len() && trim_end_spec(sub) == sub.subrange(0, k0) && (forall|i: int|
                k0 <= i < sub.len() ==> is_space_char(sub[i]));
        assert(sub.subrange(0, k0) == s.subrange(0, k0));
        assert forall|i: int| k0 <= i < s.len() implies is_space_char(s[i]) by {
            if i < s.len() - 1 {
                assert(sub[i] == s[i]);
            } else {
                assert(s[i] == s.last());
            }
        }
        assert(0 <= k0 <= s.len() && trim_end_spec(s) == s.subrange(0, k0) && (forall|i: int|
            k0 <= i < s.len() ==> is_space_char(s[i])));
        if s.len() > 0 && !is_space_char(s[0]) && trim_end_spec(s).len() > 0 {
            assert(trim_end_spec(s)[0] == s[0]);
        }
    } else {
        assert(s.subrange(0, s.len() as int) == s);
        assert(0 <= s.len() <= s.len() && trim_end_spec(s) == s.subrange(0, s.len() as int) && (
        forall|i: int| s.len() <= i < s.len() ==> is_space_char(s[i])));
    }
}

/// The result of trimming is trimmed.
pub proof fn lemma_trim_is_trimmed(s: Seq<char>)
    ensures
        is_trimmed(trim_spec(s)),
{
    lemma_trim_start_props(s);
    lemma_trim_end_props(trim_start_spec(s));
}

/// Trimming a trimmed sequence changes nothing, so trimming is idempotent.
pub proof fn lemma_trim_of_trimmed(s: Seq<char>)
    requires
        is_trimmed(s),
    ensures
        trim_spec(s) == s,
{
}

/// Trim a line of characters; the verified counterpart of `str::trim`
/// restricted to one line.
pub fn trim_chars(v: &Vec<char>) -> (r: Vec<char>)
    ensures
        r@ == trim_spec(v@),
{
    let n = v.len();
    let mut lo: usize = 0;
    while lo < n && is_space(v[lo])
        invariant
            0 <= lo <= n,
            n == v.len(),
            forall|i: int| 0 <= i < lo ==> is_space_char(v@[i]),
        decreases n - lo,
    {
        lo = lo + 1;
    }
    let mut hi: usize = n;
    while hi > lo && is_space(v[hi - 1])
        invariant
            lo <= hi <= n,
            n == v.len(),
            forall|i: int| 0 <= i < lo ==> is_space_char(v@[i]),
            forall|i: int| hi <= i < n ==> is_space_char(v@[i]),
        decreases hi,
    {
        hi = hi - 1;
    }
    let mut r: Vec<char> = Vec::new();
    let mut i: usize = lo;
    while i < hi
        invariant
            lo <= i <= hi <= n,
            n == v.len(),
            r@ == v@.subrange(lo as int, i as int),
        decreases hi - i,
    {
        r.push(v[i]);
        assert(r@ == v@.subrange(lo as int, i + 1));
        i = i + 1;
    }
    proof {
        lemma_subrange_is_trim(v@, lo as int, hi as int);
    }
    r
}

/// If everything before `lo` and after `hi` is whitespace and the ends at
/// `lo` and `hi` are not, the subrange between them is the trimmed form.
proof fn lemma_subrange_is_trim(s: Seq<char>, lo: int, hi: int)
    requires
        0 <= lo <= hi <= s.len(),
        forall|i: int| 0 <= i < lo ==> is_space_char(s[i]),
        forall|i: int| hi <= i < s.len() ==> is_space_char(s[i]),
        lo < hi ==> !is_space_char(s[lo]),
        lo < hi ==> !is_space_char(s[hi - 1]),
        lo == hi ==> lo == s.len() || hi == 0 || (forall|i: int|
            0 <= i < s.len() ==> is_space_char(s[i])),
    ensures
        s.subrange(lo, hi) == trim_spec(s),
    decreases s.len(),
{
    if s.len() > 0 && is_space_char(s[0]) {
        let sub = s.drop_first();
        if lo > 0 {
            assert(forall|i: int| 0 <= i < lo - 1 ==> is_space_char(sub[i]));
            assert(forall|i: int| hi - 1 <= i < sub.len() ==> is_space_char(sub[i]));
            lemma_subrange_is_trim(sub, lo - 1, hi - 1);
            assert(sub.subrange(lo - 1, hi - 1) == s.subrange(lo, hi));
        } else {
            // lo == 0 and s[0] is whitespace, so lo == hi: all of s is whitespace
            assert(lo == hi);
            assert(forall|i: int| 0 <= i < sub.len() ==> is_space_char(sub[i]));
            lemma_subrange_is_trim(sub, 0, 0);
            assert(sub.subrange(0, 0) == s.subrange(lo, hi));
        }
    } else {
        // no leading whitespace: trim_start leaves s unchanged
        assert(trim_start_spec(s) == s);
        lemma_suffix_is_trim_end(s, hi);
        assert(s.subrange(lo, hi) == s.subrange(0, hi));
    }
}

/// The trimmed form of a sequence is one of its subranges.
proof fn lemma_trim_is_subrange(s: Seq<char>)
    ensures
        exists|k1: int, k2: int|
            0 <= k1 <= k2 <= s.len() && trim_spec(s) == s.subrange(k1, k2),
{
    lemma_trim_start_props(s);
    let k1 = choose|k1: int|
        0 <= k1 <= s.len() && trim_start_spec(s) == s.subrange(k1, s.len() as int) && (forall|
            i: int,
        | 0 <= i < k1 ==> is_space_char(s[i]));
    let mid = trim_start_spec(s);
    lemma_trim_end_props(mid);
    let k2 = choose|k2: int|
        0 <= k2 <= mid.len() && trim_end_spec(mid) == mid.subrange(0, k2) && (forall|i: int|
            k2 <= i < mid.len() ==> is_space_char(mid[i]));
    assert(mid.subrange(0, k2) == s.subrange(k1, k1 + k2));
    assert(0 <= k1 <= k1 + k2 <= s.len() && trim_spec(s) == s.subrange(k1, k1 + k2));
}

/// Trimming cannot introduce a character that the input lacks.
proof fn lemma_trim_no_newline(s: Seq<char>)
    requires
        forall|i: int| 0 <= i < s.len() ==> s[i] != '\n',
    ensures
        forall|i: int| 0 <= i < trim_spec(s).len() ==> trim_spec(s)[i] != '\n',
{
    lemma_trim_is_subrange(s);
}

proof fn lemma_suffix_is_trim_end(s: Seq<char>, hi: int)
    requires
        0 <= hi <= s.len(),
        forall|i: int| hi <= i < s.len() ==> is_space_char(s[i]),
        hi > 0 ==> !is_space_char(s[hi - 1]),
    ensures
        s.subrange(0, hi) == trim_end_spec(s),
    decreases s.len(),
{
    if s.len() > 0 && is_space_char(s.last()) {
        let sub = s.drop_last();
        assert(hi < s.len());
        lemma_suffix_is_trim_end(sub, hi);
        assert(sub.subrange(0, hi) == s.subrange(0, hi));
    } else {
        if s.len() == 0 {
            assert(s.subrange(0, hi) == s);
        } else {
            assert(hi == s.len());
            assert(s.subrange(0, hi) == s);
        }
    }
}

/// Position of the first `\n` in `s`, or `s.len()` when there is none.
pub open spec fn nl_pos(s: Seq<char>) -> nat
    decreases s.len(),
{
    if s.len() == 0 {
        0
    } else if s[0] == '\n' {
        0
    } else {
        1 + nl_pos(s.drop_first())
    }
}

proof fn lemma_nl_pos_props(s: Seq<char>)
    ensures
        nl_pos(s) <= s.len(),
        forall|i: int| 0 <= i < nl_pos(s) ==> s[i] != '\n',
        nl_pos(s) < s.len() ==> s[nl_pos(s) as int] == '\n',
    decreases s.len(),
{
    if s.len() == 0 || s[0] == '\n' {
    } else {
        let sub = s.drop_first();
        lemma_nl_pos_props(sub);
        assert forall|i: int| 0 <= i < nl_pos(s) implies s[i] != '\n' by {
            if i > 0 {
                assert(sub[i - 1] == s[i]);
            }
        }
        if nl_pos(s) < s.len() {
            assert(sub[nl_pos(sub) as int] == s[nl_pos(s) as int]);
        }
    }
}

/// `nl_pos` is determined by a scan: if nothing before `q` is a newline and
/// `q` is either the end or a newline, then `nl_pos(s) == q`.
proof fn lemma_nl_pos_at(s: Seq<char>, q: int)
    requires
        0 <= q <= s.len(),
        forall|i: int| 0 <= i < q ==> s[i] != '\n',
        q < s.len() ==> s[q] == '\n',
    ensures
        nl_pos(s) == q,
    decreases s.len(),
{
    if s.len() == 0 {
    } else if s[0] == '\n' {
        assert(q == 0);
    } else {
        let sub = s.drop_first();
        assert(q >= 1);
        assert(forall|i: int| 0 <= i < q - 1 ==> sub[i] == s[i + 1] && s[i + 1] != '\n');
        if q - 1 < sub.len() {
            assert(sub[q - 1] == s[q]);
        }
        lemma_nl_pos_at(sub, q - 1);
    }
}

/// Join two normalized pieces with a newline, eliding empty sides.
pub open spec fn join_line(a: Seq<char>, b: Seq<char>) -> Seq<char> {
    if a.len() == 0 {
        b
    } else if b.len() == 0 {
        a
    } else {
        a + seq!['\n'] + b
    }
}

pub proof fn lemma_join_line_assoc(a: Seq<char>, b: Seq<char>, c: Seq<char>)
    ensures
        join_line(a, join_line(b, c)) == join_line(join_line(a, b), c),
{
    if a.len() != 0 && b.len() != 0 && c.len() != 0 {
        assert(a + seq!['\n'] + (b + seq!['\n'] + c) =~= (a + seq!['\n'] + b) + seq!['\n'] + c);
    }
}

/// The whitespace-normal form of a text: every line trimmed, blank lines
/// dropped, the rest joined with single newlines.
pub open spec fn normalize_spec(s: Seq<char>) -> Seq<char>
    decreases s.len(),
{
    let p = nl_pos(s) as int;
    if p >= s.len() {
        trim_spec(s)
    } else {
        join_line(
            trim_spec(s.subrange(0, p)),
            normalize_spec(s.subrange(p + 1, s.len() as int)),
        )
    }
}

/// A text is in normal form when every maximal newline-free segment is
/// nonempty and carries no whitespace at its edges.
pub open spec fn is_normalized(r: Seq<char>) -> bool {
    r.len() == 0 || (!is_space_char(r[0]) && !is_space_char(r.last()) && (forall|i: int|
        0 <= i < r.len() && #[trigger] r[i] == '\n' ==> 0 < i && i < r.len() - 1 && !is_space_char(
            r[i - 1],
        ) && !is_space_char(r[i + 1])))
}

/// Normalization always lands in normal form.
pub proof fn lemma_normalize_is_normalized(s: Seq<char>)
    ensures
        is_normalized(normalize_spec(s)),
    decreases s.len(),
{
    lemma_nl_pos_props(s);
    let p = nl_pos(s) as int;
    if p >= s.len() {
        lemma_trim_is_trimmed(s);
        lemma_trim_no_newline(s);
        let r = trim_spec(s);
        assert forall|i: int| 0 <= i < r.len() && #[trigger] r[i] == '\n' implies 0 < i && i
            < r.len() - 1 && !is_space_char(r[i - 1]) && !is_space_char(r[i + 1]) by {
            assert(r[i] != '\n');
        }
    } else {
        let head = s.subrange(0, p);
        let rest = s.subrange(p + 1, s.len() as int);
        let t = trim_spec(head);
        let nr = normalize_spec(rest);
        lemma_normalize_is_normalized(rest);
        lemma_trim_is_trimmed(head);
        assert(forall|i: int| 0 <= i < head.len() ==> head[i] != '\n');
        lemma_trim_no_newline(head);
        if t.len() == 0 || nr.len() == 0 {
        } else {
            let r = t + seq!['\n'] + nr;
            assert(r[0] == t[0]);
            assert(r.last() == nr.last());
            assert forall|i: int| 0 <= i < r.len() && #[trigger] r[i] == '\n' implies 0 < i && i
                < r.len() - 1 && !is_space_char(r[i - 1]) && !is_space_char(r[i + 1]) by {
                if i < t.len() {
                    assert(r[i] == t[i]);
                    assert(r[i] != '\n');
                } else if i == t.len() {
                    assert(r[i - 1] == t.last());
                    assert(r[i + 1] == nr[0]);
                } else {
                    let k = i - t.len() - 1;
                    assert(r[i] == nr[k]);
                    assert(0 < k && k < nr.len() - 1 && !is_space_char(nr[k - 1]) && !is_space_char(
                        nr[k + 1],
                    ));
                    assert(r[i - 1] == nr[k - 1]);
                    assert(r[i + 1] == nr[k + 1]);
                }
            }
        }
    }
}

/// A text in normal form is a fixed point of normalization.
pub proof fn lemma_normalize_of_normalized(r: Seq<char>)
    requires
        is_normalized(r),
    ensures
        normalize_spec(r) == r,
    decreases r.len(),
{
    lemma_nl_pos_props(r);
    let p = nl_pos(r) as int;
    if p >= r.len() {
        if r.len() == 0 {
        } else {
            assert(is_trimmed(r));
        }
        lemma_trim_of_trimmed(r);
    } else {
        let head = r.subrange(0, p);
        let rest = r.subrange(p + 1, r.len() as int);
        assert(r[p] == '\n');
        assert(0 < p && p < r.len() - 1);
        assert(head[0] == r[0]);
        assert(head.last() == r[p - 1]);
        assert(is_trimmed(head));
        lemma_trim_of_trimmed(head);
        assert(rest[0] == r[p + 1]);
        assert(rest.last() == r.last());
        assert forall|i: int| 0 <= i < rest.len() && #[trigger] rest[i] == '\n' implies 0 < i && i
            < rest.len() - 1 && !is_space_char(rest[i - 1]) && !is_space_char(rest[i + 1]) by {
            assert(rest[i] == r[p + 1 + i]);
            assert(0 < p + 1 + i && p + 1 + i < r.len() - 1 && !is_space_char(r[p + i])
                && !is_space_char(r[p + 2 + i]));
            if i > 0 {
                assert(rest[i - 1] == r[p + i]);
            }
            if i < rest.len() - 1 {
                assert(rest[i + 1] == r[p + 2 + i]);
            }
        }
        assert(is_normalized(rest));
        lemma_normalize_of_normalized(rest);
        assert(head.len() > 0 && rest.len() > 0);
        assert(join_line(head, rest) == head + seq!['\n'] + rest);
        assert(head + seq!['\n'] + rest =~= r);
    }
}

/// Normalization is idempotent: normalizing a normalized text changes
/// nothing.
pub proof fn lemma_normalize_idempotent(s: Seq<char>)
    ensures
        normalize_spec(normalize_spec(s)) == normalize_spec(s),
{
    lemma_normalize_is_normalized(s);
    lemma_normalize_of_normalized(normalize_spec(s));
}

/// Append the characters of `t` to `out`, with a separating newline when
/// both sides are nonempty; the executable form of `join_line`.
pub fn append_joined(out: &mut Vec<char>, t: &Vec<char>)
    ensures
        final(out)@ == join_line(old(out)@, t@),
{
    if t.len() > 0 {
        let ghost out0 = out@;
        if out.len() > 0 {
            out.push('\n');
            assert(out@ == out0 + seq!['\n']);
        }
        let mut m: usize = 0;
        let ghost base = out@;
        while m < t.len()
            invariant
                m <= t@.len(),
                out@ == base + t@.subrange(0, m as int),
            decreases t@.len() - m,
        {
            out.push(t[m]);
            assert(out@ == base + t@.subrange(0, m + 1));
            m = m + 1;
        }
        assert(t@.subrange(0, t@.len() as int) == t@);
        proof {
            if out0.len() > 0 {
                assert(out@ =~= out0 + seq!['\n'] + t@);
            } else {
                assert(out@ =~= t@);
            }
        }
    }
}

/// Whitespace-normalize a character sequence: trim every line, drop blank
/// lines, join the rest with single newlines.
pub fn normalize_chars(v: &Vec<char>) -> (r: Vec<char>)
    ensures
        r@ == normalize_spec(v@),
{
    let n = v.len();
    let mut out: Vec<char> = Vec::new();
    let mut i: usize = 0;
    proof {
        assert(v@.subrange(0, n as int) == v@);
    }
    loop
        invariant_except_break
            i <= n,
            n == v@.len(),
            normalize_spec(v@) == join_line(
                out@,
                normalize_spec(v@.subrange(i as int, n as int)),
            ),
        ensures
            out@ == normalize_spec(v@),
        decreases n - i,
    {
        let mut j: usize = i;
        while j < n && !(v[j] == '\n')
            invariant
                i <= j <= n,
                n == v@.len(),
                forall|k: int| i <= k < j ==> v@[k] != '\n',
            decreases n - j,
        {
            j = j + 1;
        }
        let mut line: Vec<char> = Vec::new();
        let mut k: usize = i;
        while k < j
            invariant
                i <= k <= j <= n,
                n == v@.len(),
                line@ == v@.subrange(i as int, k as int),
            decreases j - k,
        {
            line.push(v[k]);
            assert(line@ == v@.subrange(i as int, k + 1));
            k = k + 1;
        }
        let t = trim_chars(&line);
        proof {
            let s_rem = v@.subrange(i as int, n as int);
            assert(forall|idx: int| 0 <= idx < j - i ==> s_rem[idx] == v@[i + idx]);
            if j < n {
                assert(s_rem[j - i] == v@[j as int]);
            }
            lemma_nl_pos_at(s_rem, j - i);
            assert(s_rem.subrange(0, (j - i) as int) == line@);
        }
        if j == n {
            proof {
                let s_rem = v@.subrange(i as int, n as int);
                assert(normalize_spec(s_rem) == trim_spec(s_rem));
                assert(s_rem.subrange(0, (j - i) as int) == s_rem);
            }
            append_joined(&mut out, &t);
            break;
        } else {
            proof {
                let s_rem = v@.subrange(i as int, n as int);
                let rest = s_rem.subrange((j - i + 1) as int, s_rem.len() as int);
                assert(normalize_spec(s_rem) == join_line(trim_spec(line@), normalize_spec(rest)));
                assert(rest == v@.subrange(j + 1, n as int));
                lemma_join_line_assoc(out@, t@, normalize_spec(rest));
            }
            append_joined(&mut out, &t);
            i = j + 1;
        }
    }
    out
}

/// Relies on `str::chars`: it yields exactly the characters of the string,
/// in order.
#[verifier::external_body]
pub fn chars_vec(s: &str) -> (r: Vec<char>)
    ensures
        r@ == s@,
{
    s.chars().collect()
}

/// Relies on `String`'s `FromIterator<char>`: collecting characters builds
/// the string of exactly those characters, in order.
#[verifier::external_body]
pub fn string_from_chars(v: &Vec<char>) -> (r: String)
    ensures
        r@ == v@,
{
    v.iter().collect()
}

/// Compare two character vectors.
pub fn chars_eq(a: &Vec<char>, b: &Vec<char>) -> (r: bool)
    ensures
        r == (a@ == b@),
{
    if a.len() != b.len() {
        proof {
            assert(a@ != b@);
        }
        return false;
    }
    let n = a.len();
    let mut i: usize = 0;
    while i < n
        invariant
            i <= n,
            n == a@.len() && n == b@.len(),
            forall|j: int| 0 <= j < i ==> a@[j] == b@[j],
        decreases n - i,
    {
        if !(a[i] == b[i]) {
            proof {
                assert(a@[i as int] != b@[i as int]);
            }
            return false;
        }
        i = i + 1;
    }
    proof {
        assert(a@ =~= b@);
    }
    true
}

/// Compare two strings by their characters.
pub fn str_eq(a: &str, b: &str) -> (r: bool)
    ensures
        r == (a@ == b@),
{
    let av = chars_vec(a);
    let bv = chars_vec(b);
    if av.len() != bv.len() {
        proof {
            assert(a@ != b@);
        }
        return false;
    }
    let n = av.len();
    let mut i: usize = 0;
    while i < n
        invariant
            i <= n,
            n == av@.len() && n == bv@.len(),
            av@ == a@ && bv@ == b@,
            forall|j: int| 0 <= j < i ==> av@[j] == bv@[j],
        decreases n - i,
    {
        if !(av[i] == bv[i]) {
            proof {
                assert(a@[i as int] != b@[i as int]);
            }
            return false;
        }
        i = i + 1;
    }
    proof {
        assert(a@ =~= b@);
    }
    true
}

} // verus!
