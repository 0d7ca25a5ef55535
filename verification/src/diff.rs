//! The unified-diff applier for text fields.
//!
//! A diff is parsed line by line: `---`/`+++` file headers before
//! the first hunk are skipped, a `@@ -a[,b] +c[,d] @@` header moves
//! the cursor to line `a` of the source, and inside a hunk a leading
//! space is a context line that must match the source, `-` removes a
//! matching source line, `+` emits a new line, and `\` annotations
//! are skipped.  The post-image is the edited line sequence joined
//! back with newlines; any misalignment is a mismatch.

use vstd::prelude::*;
use crate::path::{all_digits, digits_val, is_digit, lemma_digits_val_nonneg};

verus! {

/// Split at newlines: `n` newline characters yield `n + 1` lines.
pub open spec fn split_lines(s: Seq<char>) -> Seq<Seq<char>>
    decreases s.len(),
{
    if s.len() == 0 {
        seq![Seq::<char>::empty()]
    } else if s[0] == '\n' {
        seq![Seq::<char>::empty()] + split_lines(s.drop_first())
    } else {
        let rest = split_lines(s.drop_first());
        seq![seq![s[0]] + rest[0]] + rest.drop_first()
    }
}

/// Join lines with single newlines; the inverse of `split_lines`.
pub open spec fn join_lines(ls: Seq<Seq<char>>) -> Seq<char>
    decreases ls.len(),
{
    if ls.len() == 0 {
        Seq::empty()
    } else if ls.len() == 1 {
        ls[0]
    } else {
        ls[0] + seq!['\n'] + join_lines(ls.drop_first())
    }
}

pub proof fn lemma_split_nonempty(s: Seq<char>)
    ensures
        split_lines(s).len() >= 1,
    decreases s.len(),
{
    if s.len() > 0 {
        lemma_split_nonempty(s.drop_first());
    }
}

/// Splitting at the first newline peels off the first line.
pub proof fn lemma_split_head(line: Seq<char>, rest: Seq<char>)
    requires
        forall|k: int| 0 <= k < line.len() ==> line[k] != '\n',
    ensures
        split_lines(line + seq!['\n'] + rest) == seq![line] + split_lines(rest),
    decreases line.len(),
{
    let s = line + seq!['\n'] + rest;
    if line.len() == 0 {
        assert(s =~= seq!['\n'] + rest);
        assert(s[0] == '\n');
        assert(s.drop_first() =~= rest);
        assert(line =~= Seq::<char>::empty());
    } else {
        assert(s[0] == line[0]);
        assert(s[0] != '\n');
        assert(s.drop_first() =~= line.drop_first() + seq!['\n'] + rest);
        lemma_split_head(line.drop_first(), rest);
        let r2 = seq![line.drop_first()] + split_lines(rest);
        lemma_split_nonempty(rest);
        assert(r2[0] == line.drop_first());
        assert(seq![s[0]] + r2[0] =~= line);
        assert(r2.drop_first() =~= split_lines(rest));
        assert(split_lines(s) =~= seq![line] + split_lines(rest));
    }
}

/// A newline-free string is one line.
pub proof fn lemma_split_whole(line: Seq<char>)
    requires
        forall|k: int| 0 <= k < line.len() ==> line[k] != '\n',
    ensures
        split_lines(line) == seq![line],
    decreases line.len(),
{
    if line.len() == 0 {
        assert(line =~= Seq::<char>::empty());
    } else {
        lemma_split_whole(line.drop_first());
        let rest = split_lines(line.drop_first());
        assert(rest[0] == line.drop_first());
        assert(seq![line[0]] + rest[0] =~= line);
        assert(rest.drop_first() =~= Seq::<Seq<char>>::empty());
        assert(split_lines(line) =~= seq![line]);
    }
}

/// Appending one more line to a join.
pub proof fn lemma_join_snoc(ls: Seq<Seq<char>>, x: Seq<char>)
    requires
        ls.len() >= 1,
    ensures
        join_lines(ls.push(x)) == join_lines(ls) + seq!['\n'] + x,
    decreases ls.len(),
{
    let p = ls.push(x);
    if ls.len() == 1 {
        assert(p.len() == 2);
        assert(p[0] == ls[0]);
        assert(p.drop_first() =~= seq![x]);
        assert(join_lines(seq![x]) == x);
    } else {
        lemma_join_snoc(ls.drop_first(), x);
        assert(p.drop_first() =~= ls.drop_first().push(x));
        assert(p[0] == ls[0]);
        assert(ls[0] + seq!['\n'] + (join_lines(ls.drop_first()) + seq!['\n'] + x) =~= (ls[0]
            + seq!['\n'] + join_lines(ls.drop_first())) + seq!['\n'] + x);
    }
}

/// The index of the first non-digit at or after `i`.
pub open spec fn digits_end(l: Seq<char>, i: int) -> int
    decreases l.len() - i,
{
    if i < 0 || i >= l.len() {
        l.len() as int
    } else if is_digit(l[i]) {
        digits_end(l, i + 1)
    } else {
        i
    }
}

/// The position after an optional `,<count>` at `i`.
pub open spec fn skip_count(l: Seq<char>, i: int) -> int {
    if i < l.len() && l[i] == ',' && i + 1 < l.len() && is_digit(l[i + 1]) {
        digits_end(l, i + 1)
    } else {
        i
    }
}

/// The rest of a hunk header after the old-start digits end at `i`:
/// an optional `,<count>`, then ` +<digits>` with an optional
/// `,<count>`, then ` @@`; a section heading may follow.
pub open spec fn hunk_tail_ok(l: Seq<char>, i: int) -> bool {
    let j = skip_count(l, i);
    &&& j + 2 < l.len()
    &&& l[j] == ' '
    &&& l[j + 1] == '+'
    &&& is_digit(l[j + 2])
    &&& ({
        let k = skip_count(l, digits_end(l, j + 2));
        &&& k + 2 < l.len()
        &&& l[k] == ' '
        &&& l[k + 1] == '@'
        &&& l[k + 2] == '@'
    })
}

/// The one-based source line a hunk header addresses: the header
/// must open with `@@ -` followed by at least one digit whose run
/// gives a value that fits the machine word, and the rest of the
/// `-a[,b] +c[,d] @@` form must follow.
pub open spec fn hunk_start(l: Seq<char>) -> Option<int> {
    if l.len() >= 5 && l[0] == '@' && l[1] == '@' && l[2] == ' ' && l[3] == '-' && is_digit(l[4]) {
        let e = digits_end(l, 4);
        let v = digits_val(l.subrange(4, e));
        if v <= usize::MAX as int && hunk_tail_ok(l, e) {
            Option::Some(v)
        } else {
            Option::None
        }
    } else {
        Option::None
    }
}

/// Is `l` a file header (`---` or `+++`)?
pub open spec fn is_file_header(l: Seq<char>) -> bool {
    l.len() >= 3 && ((l[0] == '-' && l[1] == '-' && l[2] == '-') || (l[0] == '+' && l[1] == '+'
        && l[2] == '+'))
}

/// Run the diff lines `dl[d..]` against the source lines, from
/// source position `sp`, with `out` already emitted; yields the
/// final position and output, or nothing on any misalignment.
pub open spec fn run_diff(
    src: Seq<Seq<char>>,
    dl: Seq<Seq<char>>,
    d: int,
    sp: int,
    out: Seq<Seq<char>>,
    in_hunk: bool,
) -> Option<(int, Seq<Seq<char>>)>
    decreases dl.len() - d,
{
    if d < 0 || d >= dl.len() {
        Option::Some((sp, out))
    } else {
        let l = dl[d];
        if l.len() == 0 {
            run_diff(src, dl, d + 1, sp, out, in_hunk)
        } else if hunk_start(l) is Some {
            let a = hunk_start(l)->Some_0;
            let tgt = if a > 0 {
                a - 1
            } else {
                0
            };
            if sp <= tgt <= src.len() {
                run_diff(src, dl, d + 1, tgt, out + src.subrange(sp, tgt), true)
            } else {
                Option::None
            }
        } else if !in_hunk {
            if is_file_header(l) {
                run_diff(src, dl, d + 1, sp, out, false)
            } else {
                Option::None
            }
        } else if l[0] == ' ' {
            if sp < src.len() && src[sp] == l.drop_first() {
                run_diff(src, dl, d + 1, sp + 1, out.push(l.drop_first()), true)
            } else {
                Option::None
            }
        } else if l[0] == '-' {
            if sp < src.len() && src[sp] == l.drop_first() {
                run_diff(src, dl, d + 1, sp + 1, out, true)
            } else {
                Option::None
            }
        } else if l[0] == '+' {
            run_diff(src, dl, d + 1, sp, out.push(l.drop_first()), true)
        } else if l[0] == '\\' {
            run_diff(src, dl, d + 1, sp, out, true)
        } else {
            Option::None
        }
    }
}

/// The post-image of applying a unified diff to a text, or nothing
/// when the diff does not align.
pub open spec fn spec_apply_diff(text: Seq<char>, diff: Seq<char>) -> Option<Seq<char>> {
    let src = split_lines(text);
    let dl = split_lines(diff);
    match run_diff(src, dl, 0, 0, Seq::empty(), false) {
        Option::None => Option::None,
        Option::Some((sp, out)) => if 0 <= sp <= src.len() {
            Option::Some(join_lines(out + src.subrange(sp, src.len() as int)))
        } else {
            Option::None
        },
    }
}

/// Push one line, tracked at the view level.
fn push_line(v: &mut Vec<String>, s: String)
    ensures
        final(v).deep_view() == old(v).deep_view().push(s@),
{
    let ghost dv0 = v.deep_view();
    let ghost va0 = v@;
    let ghost sv = s@;
    v.push(s);
    proof {
        let dv = v.deep_view();
        assert forall|i: int| 0 <= i < dv.len() implies dv[i] == dv0.push(sv)[i] by {
            assert(dv[i] == v@[i].deep_view());
            assert(v@[i].deep_view() == v@[i]@);
            if i < dv.len() - 1 {
                assert(v@[i] == va0[i]);
                assert(dv0[i] == va0[i].deep_view());
            }
        }
        assert(dv =~= dv0.push(sv));
    }
}

/// Split a string into its lines.
pub fn split_lines_exec(s: &str) -> (r: Vec<String>)
    ensures
        r.deep_view() == split_lines(s@),
{
    let n = s.unicode_len();
    let mut out: Vec<String> = Vec::new();
    let mut start: usize = 0;
    let mut i: usize = 0;
    proof {
        assert(out.deep_view() =~= Seq::<Seq<char>>::empty());
        assert(s@.subrange(0, n as int) =~= s@);
    }
    while i < n
        invariant
            n == s@.len(),
            0 <= start <= i <= n,
            forall|k: int| start <= k < i ==> s@[k] != '\n',
            split_lines(s@) == out.deep_view() + split_lines(s@.subrange(start as int, n as int)),
        decreases n - i,
    {
        let c = s.get_char(i);
        if c == '\n' {
            let ghost out0 = out.deep_view();
            let piece = s.substring_char(start, i).to_owned();
            push_line(&mut out, piece);
            proof {
                let line = s@.subrange(start as int, i as int);
                let rest = s@.subrange(i as int + 1, n as int);
                assert(s@.subrange(start as int, n as int) =~= line + seq!['\n'] + rest);
                lemma_split_head(line, rest);
                assert(out.deep_view() + split_lines(rest) =~= out0 + (seq![line]
                    + split_lines(rest)));
            }
            start = i + 1;
        }
        i += 1;
    }
    let ghost out0 = out.deep_view();
    let piece = s.substring_char(start, n).to_owned();
    push_line(&mut out, piece);
    proof {
        let line = s@.subrange(start as int, n as int);
        lemma_split_whole(line);
        assert(out.deep_view() =~= out0 + seq![line]);
    }
    out
}

/// Join lines back into one string.
pub fn join_lines_exec(lines: &Vec<String>) -> (r: String)
    ensures
        r@ == join_lines(lines.deep_view()),
{
    let m = lines.len();
    if m == 0 {
        return String::new();
    }
    let mut acc: String = lines[0].clone();
    proof {
        assert(lines.deep_view().subrange(0, 1) =~= seq![lines@[0]@]);
        assert(lines.deep_view()[0] == lines@[0]@);
    }
    let mut i: usize = 1;
    while i < m
        invariant
            m == lines@.len(),
            1 <= i <= m,
            acc@ == join_lines(lines.deep_view().subrange(0, i as int)),
        decreases m - i,
    {
        acc.append("\n");
        acc.append(lines[i].as_str());
        proof {
            reveal_strlit("\n");
            assert("\n"@ =~= seq!['\n']);
            let pre = lines.deep_view().subrange(0, i as int);
            lemma_join_snoc(pre, lines.deep_view()[i as int]);
            assert(lines.deep_view().subrange(0, i as int + 1) =~= pre.push(
                lines.deep_view()[i as int],
            ));
            assert(lines.deep_view()[i as int] == lines@[i as int]@);
        }
        i += 1;
    }
    proof {
        assert(lines.deep_view().subrange(0, m as int) =~= lines.deep_view());
    }
    acc
}

/// The first position at or after `from` that holds no digit.
fn digits_run_end(s: &str, from: usize) -> (r: usize)
    requires
        from <= s@.len(),
    ensures
        r as int == digits_end(s@, from as int),
        from <= r <= s@.len(),
{
    let n = s.unicode_len();
    let mut i = from;
    let mut cont = true;
    while i < n && cont
        invariant
            n == s@.len(),
            from <= i <= n,
            !cont ==> i < n && !is_digit(s@[i as int]),
            digits_end(s@, from as int) == digits_end(s@, i as int),
        decreases n - i, (if cont {
            1int
        } else {
            0int
        }),
    {
        let c = s.get_char(i);
        let cu = c as u32;
        if 48 <= cu && cu <= 57 {
            i += 1;
        } else {
            cont = false;
        }
    }
    proof {
        assert(digits_end(s@, i as int) == i as int);
    }
    i
}

/// Step over an optional `,<count>` at `i`.
fn skip_count_exec(s: &str, i: usize) -> (r: usize)
    requires
        i <= s@.len(),
    ensures
        r as int == skip_count(s@, i as int),
        i <= r <= s@.len(),
{
    let n = s.unicode_len();
    if i < n && s.get_char(i) == ',' && i + 1 < n {
        let c = s.get_char(i + 1);
        let cu = c as u32;
        if 48 <= cu && cu <= 57 {
            return digits_run_end(s, i + 1);
        }
    }
    i
}

/// Check the `[,b] +c[,d] @@` tail of a hunk header from `i`.
fn tail_check(s: &str, i: usize) -> (r: bool)
    requires
        i <= s@.len(),
    ensures
        r == hunk_tail_ok(s@, i as int),
{
    let n = s.unicode_len();
    let j = skip_count_exec(s, i);
    if !(j < n && s.get_char(j) == ' ') {
        return false;
    }
    if !(j + 1 < n && s.get_char(j + 1) == '+') {
        return false;
    }
    if j + 2 >= n {
        return false;
    }
    let c = s.get_char(j + 2);
    let cu = c as u32;
    if !(48 <= cu && cu <= 57) {
        return false;
    }
    let e2 = digits_run_end(s, j + 2);
    let k = skip_count_exec(s, e2);
    if !(k < n && s.get_char(k) == ' ') {
        return false;
    }
    if !(k + 1 < n && s.get_char(k + 1) == '@') {
        return false;
    }
    if !(k + 2 < n && s.get_char(k + 2) == '@') {
        return false;
    }
    true
}

/// Parse a hunk header line, if it is one.
fn hunk_line_start(l: &String) -> (r: Option<usize>)
    ensures
        match r {
            Option::Some(u) => hunk_start(l@) == Option::Some(u as int),
            Option::None => hunk_start(l@) is None,
        },
{
    let n = l.as_str().unicode_len();
    if n < 5 {
        return Option::None;
    }
    let s = l.as_str();
    if !(s.get_char(0) == '@' && s.get_char(1) == '@' && s.get_char(2) == ' ' && s.get_char(3)
        == '-') {
        return Option::None;
    }
    let c4 = s.get_char(4);
    let c4u = c4 as u32;
    if !(48 <= c4u && c4u <= 57) {
        return Option::None;
    }
    let mut i: usize = 4;
    let mut val: usize = 0;
    let mut ok: bool = true;
    let mut cont: bool = true;
    while i < n && cont
        invariant
            n == l@.len(),
            s@ == l@,
            4 <= i <= n,
            !cont ==> i < n && !is_digit(l@[i as int]),
            forall|k: int| 4 <= k < i ==> is_digit(#[trigger] l@[k]),
            digits_end(l@, 4) == digits_end(l@, i as int),
            ({
                let ds = l@.subrange(4, i as int);
                ok == (digits_val(ds) <= usize::MAX as int) && (ok ==> val as int == digits_val(
                    ds,
                ))
            }),
        decreases n - i, (if cont { 1int } else { 0int }),
    {
        let c = s.get_char(i);
        let cu = c as u32;
        let ghost ds = l@.subrange(4, i as int);
        proof {
            assert(all_digits(ds));
            lemma_digits_val_nonneg(ds);
        }
        if 48 <= cu && cu <= 57 {
            let d = (cu - 48) as usize;
            assert(d as int == crate::path::digit_val(c));
            proof {
                assert(l@.subrange(4, i as int + 1) =~= ds.push(c));
                assert(ds.push(c).drop_last() =~= ds);
            }
            if ok {
                if val > usize::MAX / 10 || (val == usize::MAX / 10 && d > usize::MAX % 10) {
                    ok = false;
                    proof {
                        assert(digits_val(ds.push(c)) > usize::MAX as int) by (nonlinear_arith)
                            requires
                                digits_val(ds.push(c)) == digits_val(ds) * 10
                                    + crate::path::digit_val(c),
                                digits_val(ds) == val as int,
                                crate::path::digit_val(c) == d as int,
                                val > usize::MAX / 10 || (val == usize::MAX / 10 && d > usize::MAX
                                    % 10),
                                usize::MAX == usize::MAX / 10 * 10 + usize::MAX % 10,
                                0 <= d <= 9,
                        {}
                    }
                } else {
                    val = val * 10 + d;
                }
            } else {
                proof {
                    assert(digits_val(ds.push(c)) > usize::MAX as int) by (nonlinear_arith)
                        requires
                            digits_val(ds.push(c)) == digits_val(ds) * 10 + crate::path::digit_val(
                                c,
                            ),
                            digits_val(ds) > usize::MAX as int,
                            0 <= crate::path::digit_val(c),
                    {}
                }
            }
            i += 1;
        } else {
            cont = false;
        }
    }
    proof {
        assert(digits_end(l@, i as int) == i as int);
        assert(l@.subrange(4, digits_end(l@, 4)) == l@.subrange(4, i as int));
    }
    if ok && tail_check(s, i) {
        Option::Some(val)
    } else {
        Option::None
    }
}

/// Apply a unified diff to a text; `None` when it does not align.
pub fn apply_diff(text: &str, diff: &str) -> (r: Option<String>)
    ensures
        match r {
            Option::Some(t) => spec_apply_diff(text@, diff@) == Option::Some(t@),
            Option::None => spec_apply_diff(text@, diff@) is None,
        },
{
    let src = split_lines_exec(text);
    let dl = split_lines_exec(diff);
    let ghost srcv = src.deep_view();
    let ghost dlv = dl.deep_view();
    let mut out: Vec<String> = Vec::new();
    let mut sp: usize = 0;
    let mut in_hunk: bool = false;
    let nd = dl.len();
    let ns = src.len();
    let mut d: usize = 0;
    proof {
        assert(out.deep_view() =~= Seq::<Seq<char>>::empty());
    }
    while d < nd
        invariant
            srcv == src.deep_view(),
            dlv == dl.deep_view(),
            srcv == split_lines(text@),
            dlv == split_lines(diff@),
            nd == dl@.len(),
            ns == src@.len(),
            0 <= d <= nd,
            0 <= sp <= ns,
            run_diff(srcv, dlv, 0, 0, Seq::empty(), false) == run_diff(
                srcv,
                dlv,
                d as int,
                sp as int,
                out.deep_view(),
                in_hunk,
            ),
        decreases nd - d,
    {
        let l = &dl[d];
        let llen = l.as_str().unicode_len();
        proof {
            assert(dlv[d as int] == dl@[d as int]@);
        }
        if llen == 0 {
        } else {
            match hunk_line_start(l) {
                Option::Some(a) => {
                    let tgt: usize = if a > 0 {
                        a - 1
                    } else {
                        0
                    };
                    if sp <= tgt && tgt <= ns {
                        let ghost out_base = out.deep_view();
                        let ghost sp0 = sp as int;
                        while sp < tgt
                            invariant
                                srcv == src.deep_view(),
                                ns == src@.len(),
                                0 <= sp0 <= sp <= tgt <= ns,
                                out.deep_view() == out_base + srcv.subrange(sp0, sp as int),
                            decreases tgt - sp,
                        {
                            let ghost o0 = out.deep_view();
                            push_line(&mut out, src[sp].clone());
                            proof {
                                assert(srcv[sp as int] == src@[sp as int]@);
                                assert(o0.push(srcv[sp as int]) =~= out_base + srcv.subrange(
                                    sp0,
                                    sp as int + 1,
                                ));
                            }
                            sp += 1;
                        }
                        in_hunk = true;
                    } else {
                        return Option::None;
                    }
                },
                Option::None => {
                    if !in_hunk {
                        let h = llen >= 3 && ((l.as_str().get_char(0) == '-' && l.as_str()
                            .get_char(1) == '-' && l.as_str().get_char(2) == '-') || (l.as_str()
                            .get_char(0) == '+' && l.as_str().get_char(1) == '+' && l.as_str()
                            .get_char(2) == '+'));
                        if !h {
                            return Option::None;
                        }
                    } else {
                        let c0 = l.as_str().get_char(0);
                        if c0 == ' ' || c0 == '-' {
                            let tail = l.as_str().substring_char(1, llen).to_owned();
                            proof {
                                assert(tail@ =~= dlv[d as int].drop_first());
                            }
                            if sp < ns && src[sp].eq(&tail) {
                                if c0 == ' ' {
                                    push_line(&mut out, tail);
                                }
                                proof {
                                    assert(srcv[sp as int] == src@[sp as int]@);
                                }
                                sp += 1;
                            } else {
                                proof {
                                    assert(sp < ns ==> srcv[sp as int] == src@[sp as int]@);
                                }
                                return Option::None;
                            }
                        } else if c0 == '+' {
                            let tail = l.as_str().substring_char(1, llen).to_owned();
                            proof {
                                assert(tail@ =~= dlv[d as int].drop_first());
                            }
                            push_line(&mut out, tail);
                        } else if c0 == '\\' {
                        } else {
                            return Option::None;
                        }
                    }
                },
            }
        }
        d += 1;
    }
    let ghost out_base = out.deep_view();
    let ghost sp0 = sp as int;
    while sp < ns
        invariant
            srcv == src.deep_view(),
            ns == src@.len(),
            0 <= sp0 <= sp <= ns,
            out.deep_view() == out_base + srcv.subrange(sp0, sp as int),
        decreases ns - sp,
    {
        let ghost o0 = out.deep_view();
        push_line(&mut out, src[sp].clone());
        proof {
            assert(srcv[sp as int] == src@[sp as int]@);
            assert(o0.push(srcv[sp as int]) =~= out_base + srcv.subrange(sp0, sp as int + 1));
        }
        sp += 1;
    }
    proof {
        assert(out.deep_view() =~= out_base + srcv.subrange(sp0, ns as int));
    }
    Option::Some(join_lines_exec(&out))
}

} // verus!
