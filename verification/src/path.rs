//! The path compiler: JSON-style path strings become sequences of
//! segments (map keys and list indices).
//!
//! Accepted forms: `"name"`, `"user.profile.name"`, `"users[0].name"`,
//! and the same with a leading `"$."`.  A `.` must introduce a
//! non-empty key, a bracket must hold a decimal index that fits the
//! machine word, and brackets must be closed; anything else is
//! `BadPath`.  Characters after a closing bracket start a new key.

use vstd::prelude::*;
use crate::AmError;

verus! {

/// One step of a path: a map key or a list index.
#[derive(Debug)]
pub enum Segment {
    Key(String),
    Index(usize),
}

/// The mathematical image of a segment.
pub enum SegView {
    Key(Seq<char>),
    Index(int),
}

impl View for Segment {
    type V = SegView;

    open spec fn view(&self) -> SegView {
        match self {
            Segment::Key(s) => SegView::Key(s@),
            Segment::Index(i) => SegView::Index(*i as int),
        }
    }
}

/// The image of a whole segment vector.
pub open spec fn segs_view(v: Seq<Segment>) -> Seq<SegView> {
    v.map_values(|s: Segment| s@)
}

impl Segment {
    /// An owned copy with the same value.
    pub fn dup(&self) -> (r: Segment)
        ensures
            r@ == self@,
    {
        match self {
            Segment::Key(s) => Segment::Key(s.clone()),
            Segment::Index(i) => Segment::Index(*i),
        }
    }
}

/// `c` is a decimal digit: its code point lies between `'0'` (48)
/// and `'9'` (57).
pub open spec fn is_digit(c: char) -> bool {
    48 <= c as int && c as int <= 57
}

pub open spec fn digit_val(c: char) -> int {
    c as int - 48
}

pub open spec fn all_digits(ds: Seq<char>) -> bool {
    forall|i: int| 0 <= i < ds.len() ==> is_digit(#[trigger] ds[i])
}

/// The value of a decimal digit string, most significant digit first.
pub open spec fn digits_val(ds: Seq<char>) -> int
    decreases ds.len(),
{
    if ds.len() == 0 {
        0
    } else {
        digits_val(ds.drop_last()) * 10 + digit_val(ds.last())
    }
}

/// A bracketed index is valid when it is a non-empty run of digits
/// whose value fits the machine word.
pub open spec fn valid_index(ds: Seq<char>) -> bool {
    ds.len() > 0 && all_digits(ds) && digits_val(ds) <= usize::MAX as int
}

/// The parser's state between two characters.
pub enum ParseSt {
    /// At the very beginning of the (stripped) path.
    Start,
    /// Right after a `.`; a non-empty key must follow.
    AfterDot,
    /// Right after a `]`.
    AfterClose,
    /// Inside a key; the field holds the characters read so far
    /// (never empty).
    InKey(Seq<char>),
    /// Inside a bracket; the field holds the characters read so far.
    InBracket(Seq<char>),
}

pub open spec fn prepend(sv: SegView, r: Option<Seq<SegView>>) -> Option<Seq<SegView>> {
    match r {
        Option::None => Option::None,
        Option::Some(tail) => Option::Some(seq![sv] + tail),
    }
}

/// The segments denoted by the remaining input `s` read in state
/// `st`, or `None` when the path is ill-formed.
pub open spec fn parse_from(s: Seq<char>, st: ParseSt) -> Option<Seq<SegView>>
    decreases s.len(),
{
    if s.len() == 0 {
        match st {
            ParseSt::Start => Option::Some(Seq::empty()),
            ParseSt::AfterDot => Option::None,
            ParseSt::AfterClose => Option::Some(Seq::empty()),
            ParseSt::InKey(k) => Option::Some(seq![SegView::Key(k)]),
            ParseSt::InBracket(_) => Option::None,
        }
    } else {
        let c = s[0];
        let rest = s.drop_first();
        match st {
            ParseSt::Start => {
                if c == '.' {
                    Option::None
                } else if c == '[' {
                    parse_from(rest, ParseSt::InBracket(Seq::empty()))
                } else {
                    parse_from(rest, ParseSt::InKey(seq![c]))
                }
            },
            ParseSt::AfterDot => {
                if c == '.' || c == '[' {
                    Option::None
                } else {
                    parse_from(rest, ParseSt::InKey(seq![c]))
                }
            },
            ParseSt::AfterClose => {
                if c == '.' {
                    parse_from(rest, ParseSt::AfterDot)
                } else if c == '[' {
                    parse_from(rest, ParseSt::InBracket(Seq::empty()))
                } else {
                    parse_from(rest, ParseSt::InKey(seq![c]))
                }
            },
            ParseSt::InKey(k) => {
                if c == '.' {
                    prepend(SegView::Key(k), parse_from(rest, ParseSt::AfterDot))
                } else if c == '[' {
                    prepend(SegView::Key(k), parse_from(rest, ParseSt::InBracket(Seq::empty())))
                } else {
                    parse_from(rest, ParseSt::InKey(k.push(c)))
                }
            },
            ParseSt::InBracket(ds) => {
                if c == ']' {
                    if valid_index(ds) {
                        prepend(SegView::Index(digits_val(ds)), parse_from(rest, ParseSt::AfterClose))
                    } else {
                        Option::None
                    }
                } else {
                    parse_from(rest, ParseSt::InBracket(ds.push(c)))
                }
            },
        }
    }
}

/// What a path string means: the optional `$.` prefix is stripped,
/// the empty remainder is the empty path, and anything else runs
/// through the state machine.
pub open spec fn spec_parse(s: Seq<char>) -> Option<Seq<SegView>> {
    let t = if s.len() >= 2 && s[0] == '$' && s[1] == '.' {
        s.subrange(2, s.len() as int)
    } else {
        s
    };
    if t.len() == 0 {
        Option::Some(Seq::empty())
    } else {
        parse_from(t, ParseSt::Start)
    }
}

pub open spec fn compose(acc: Seq<SegView>, r: Option<Seq<SegView>>) -> Option<Seq<SegView>> {
    match r {
        Option::None => Option::None,
        Option::Some(tail) => Option::Some(acc + tail),
    }
}

pub(crate) proof fn lemma_all_digits_push(ds: Seq<char>, c: char)
    requires
        all_digits(ds),
        is_digit(c),
    ensures
        all_digits(ds.push(c)),
{
    assert forall|i: int| 0 <= i < ds.push(c).len() implies is_digit(#[trigger] ds.push(c)[i]) by {
        if i < ds.len() {
            assert(ds.push(c)[i] == ds[i]);
        } else {
            assert(ds.push(c)[i] == c);
        }
    }
}

pub(crate) proof fn lemma_not_all_digits_push(ds: Seq<char>, c: char)
    requires
        !is_digit(c),
    ensures
        !all_digits(ds.push(c)),
{
    assert(ds.push(c)[ds.len() as int] == c);
}

pub(crate) proof fn lemma_digits_val_nonneg(ds: Seq<char>)
    requires
        all_digits(ds),
    ensures
        digits_val(ds) >= 0,
    decreases ds.len(),
{
    if ds.len() > 0 {
        assert(all_digits(ds.drop_last()));
        lemma_digits_val_nonneg(ds.drop_last());
    }
}

/// Exec mirror of the parser's state; key and bracket contents are
/// tracked as positions into the input.
enum St {
    Start,
    AfterDot,
    AfterClose,
    InKey,
    InBracket,
}

/// Compile a path string into segments.
///
/// Succeeds exactly on the strings that `spec_parse` accepts and then
/// returns exactly the segments it denotes.
pub fn parse_path(path: &str) -> (r: Result<Vec<Segment>, AmError>)
    ensures
        match r {
            Result::Ok(segs) => spec_parse(path@) == Option::Some(segs_view(segs@)),
            Result::Err(e) => spec_parse(path@) == Option::<Seq<SegView>>::None
                && e == AmError::BadPath,
        },
{
    let n = path.unicode_len();
    let t: &str = if n >= 2 && path.get_char(0) == '$' && path.get_char(1) == '.' {
        path.substring_char(2, n)
    } else {
        path
    };
    let m = t.unicode_len();
    let mut segs: Vec<Segment> = Vec::new();
    if m == 0 {
        assert(segs_view(segs@) =~= Seq::<SegView>::empty());
        return Result::Ok(segs);
    }

    let mut st = St::Start;
    let mut key_start: usize = 0;
    let mut br_start: usize = 0;
    let mut br_val: usize = 0;
    let mut br_ok: bool = false;
    let mut i: usize = 0;

    proof {
        assert(t@.subrange(0, m as int) =~= t@);
        assert(segs_view(segs@) =~= Seq::<SegView>::empty());
        match parse_from(t@, ParseSt::Start) {
            Option::Some(tail) => {
                assert(Seq::<SegView>::empty() + tail =~= tail);
            },
            Option::None => {},
        }
    }

    while i < m
        invariant
            m == t@.len(),
            0 <= i <= m,
            m > 0,
            spec_parse(path@) == compose(
                segs_view(segs@),
                parse_from(t@.subrange(i as int, m as int), st_view(&st, t@, key_start as int, br_start as int, i as int)),
            ),
            matches!(st, St::InKey) ==> 0 <= key_start < i,
            matches!(st, St::InBracket) ==> 0 <= br_start <= i,
            matches!(st, St::InBracket) ==> {
                let ds = t@.subrange(br_start as int, i as int);
                br_ok == (all_digits(ds) && digits_val(ds) <= usize::MAX as int)
                && (br_ok ==> br_val as int == digits_val(ds))
            },
        decreases m - i,
    {
        let c = t.get_char(i);
        proof {
            assert(t@.subrange(i as int, m as int)[0] == c);
            assert(t@.subrange(i as int, m as int).drop_first() =~= t@.subrange(i as int + 1, m as int));
        }
        match st {
            St::Start => {
                if c == '.' {
                    return Result::Err(AmError::BadPath);
                } else if c == '[' {
                    st = St::InBracket;
                    br_start = i + 1;
                    br_val = 0;
                    br_ok = true;
                    proof {
                        assert(t@.subrange(br_start as int, i as int + 1) =~= Seq::<char>::empty());
                    }
                } else {
                    st = St::InKey;
                    key_start = i;
                    proof {
                        assert(t@.subrange(key_start as int, i as int + 1) =~= seq![c]);
                    }
                }
            },
            St::AfterDot => {
                if c == '.' || c == '[' {
                    return Result::Err(AmError::BadPath);
                } else {
                    st = St::InKey;
                    key_start = i;
                    proof {
                        assert(t@.subrange(key_start as int, i as int + 1) =~= seq![c]);
                    }
                }
            },
            St::AfterClose => {
                if c == '.' {
                    st = St::AfterDot;
                } else if c == '[' {
                    st = St::InBracket;
                    br_start = i + 1;
                    br_val = 0;
                    br_ok = true;
                    proof {
                        assert(t@.subrange(br_start as int, i as int + 1) =~= Seq::<char>::empty());
                    }
                } else {
                    st = St::InKey;
                    key_start = i;
                    proof {
                        assert(t@.subrange(key_start as int, i as int + 1) =~= seq![c]);
                    }
                }
            },
            St::InKey => {
                if c == '.' || c == '[' {
                    let ghost k = t@.subrange(key_start as int, i as int);
                    let key = t.substring_char(key_start, i).to_owned();
                    assert(key@ == k);
                    let ghost old_segs = segs@;
                    segs.push(Segment::Key(key));
                    proof {
                        assert(segs_view(segs@) =~= segs_view(old_segs) + seq![SegView::Key(k)]);
                        lemma_compose_prepend(segs_view(old_segs), SegView::Key(k),
                            parse_from(t@.subrange(i as int + 1, m as int),
                                if c == '.' { ParseSt::AfterDot } else { ParseSt::InBracket(Seq::empty()) }));
                    }
                    if c == '.' {
                        st = St::AfterDot;
                    } else {
                        st = St::InBracket;
                        br_start = i + 1;
                        br_val = 0;
                        br_ok = true;
                        proof {
                            assert(t@.subrange(br_start as int, i as int + 1) =~= Seq::<char>::empty());
                        }
                    }
                } else {
                    proof {
                        assert(t@.subrange(key_start as int, i as int + 1)
                            =~= t@.subrange(key_start as int, i as int).push(c));
                    }
                }
            },
            St::InBracket => {
                let ghost ds = t@.subrange(br_start as int, i as int);
                if c == ']' {
                    if br_ok && i > br_start {
                        assert(valid_index(ds));
                        let ghost old_segs = segs@;
                        segs.push(Segment::Index(br_val));
                        proof {
                            assert(segs_view(segs@) =~= segs_view(old_segs) + seq![SegView::Index(br_val as int)]);
                            lemma_compose_prepend(segs_view(old_segs), SegView::Index(digits_val(ds)),
                                parse_from(t@.subrange(i as int + 1, m as int), ParseSt::AfterClose));
                        }
                        st = St::AfterClose;
                    } else {
                        assert(!valid_index(ds));
                        return Result::Err(AmError::BadPath);
                    }
                } else {
                    proof {
                        assert(t@.subrange(br_start as int, i as int + 1) =~= ds.push(c));
                        assert(ds.push(c).drop_last() =~= ds);
                    }
                    if br_ok {
                        let cu = c as u32;
                        if 48 <= cu && cu <= 57 {
                            let d = (cu - 48) as usize;
                            assert(d as int == digit_val(c));
                            proof {
                                lemma_all_digits_push(ds, c);
                                lemma_digits_val_nonneg(ds);
                            }
                            if br_val > usize::MAX / 10 || (br_val == usize::MAX / 10 && d > usize::MAX % 10) {
                                br_ok = false;
                                proof {
                                    assert(digits_val(ds.push(c)) > usize::MAX as int) by (nonlinear_arith)
                                        requires
                                            digits_val(ds.push(c)) == digits_val(ds) * 10 + digit_val(c),
                                            digits_val(ds) == br_val as int,
                                            digit_val(c) == d as int,
                                            br_val > usize::MAX / 10 || (br_val == usize::MAX / 10 && d > usize::MAX % 10),
                                            usize::MAX == usize::MAX / 10 * 10 + usize::MAX % 10,
                                            0 <= d <= 9,
                                    {}
                                }
                            } else {
                                br_val = br_val * 10 + d;
                            }
                        } else {
                            proof {
                                lemma_not_all_digits_push(ds, c);
                            }
                            br_ok = false;
                        }
                    } else {
                        proof {
                            if all_digits(ds.push(c)) {
                                assert forall|j: int| 0 <= j < ds.len() implies is_digit(#[trigger] ds[j]) by {
                                    assert(ds.push(c)[j] == ds[j]);
                                    assert(is_digit(ds.push(c)[j]));
                                }
                                lemma_digits_val_nonneg(ds);
                                assert(digits_val(ds.push(c)) == digits_val(ds) * 10 + digit_val(c));
                                assert(digits_val(ds.push(c)) > usize::MAX as int) by (nonlinear_arith)
                                    requires
                                        digits_val(ds.push(c)) == digits_val(ds) * 10 + digit_val(c),
                                        digits_val(ds) > usize::MAX as int,
                                        0 <= digit_val(c),
                                {}
                            }
                        }
                    }
                }
            },
        }
        i += 1;
    }

    proof {
        assert(t@.subrange(m as int, m as int) =~= Seq::<char>::empty());
        assert(segs_view(segs@) + Seq::<SegView>::empty() =~= segs_view(segs@));
    }
    match st {
        St::Start => Result::Ok(segs),
        St::AfterClose => Result::Ok(segs),
        St::AfterDot => Result::Err(AmError::BadPath),
        St::InBracket => Result::Err(AmError::BadPath),
        St::InKey => {
            let ghost k = t@.subrange(key_start as int, m as int);
            let key = t.substring_char(key_start, m).to_owned();
            assert(key@ == k);
            let ghost old_segs = segs@;
            segs.push(Segment::Key(key));
            proof {
                assert(segs_view(segs@) =~= segs_view(old_segs) + seq![SegView::Key(k)]);
            }
            Result::Ok(segs)
        },
    }
}

/// The state-machine view of the exec parser state.
spec fn st_view(st: &St, t: Seq<char>, key_start: int, br_start: int, i: int) -> ParseSt {
    match st {
        St::Start => ParseSt::Start,
        St::AfterDot => ParseSt::AfterDot,
        St::AfterClose => ParseSt::AfterClose,
        St::InKey => ParseSt::InKey(t.subrange(key_start, i)),
        St::InBracket => ParseSt::InBracket(t.subrange(br_start, i)),
    }
}

proof fn lemma_compose_prepend(acc: Seq<SegView>, sv: SegView, r: Option<Seq<SegView>>)
    ensures
        compose(acc, prepend(sv, r)) == compose(acc + seq![sv], r),
{
    match r {
        Option::None => {},
        Option::Some(tail) => {
            assert(acc + (seq![sv] + tail) =~= (acc + seq![sv]) + tail);
        },
    }
}

} // verus!
