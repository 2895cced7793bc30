//! The parser: turns RFC 6901 pointer text (with an optional leading `#`,
//! the URI-fragment form) into the ordered token sequence of a `Pointer`.

use vstd::prelude::*;
use crate::pointer::{Pointer, SpecStep, Step};

verus! {

/// Syntactic failure of the pointer text itself: a malformed escape sequence
/// or residue that the pointer grammar does not cover.
#[derive(Debug, Clone, PartialEq, Eq)]
pub struct ParseError {
    pub error: String,
}

impl ParseError {
    /// The full human-readable report of the failure.
    pub fn message(&self) -> (r: String)
        ensures
            r@ == "Invalid JSON Pointer: "@ + self.error@,
    {
        let mut m = "Invalid JSON Pointer: ".to_owned();
        m.append(self.error.as_str());
        m
    }
}

/// A decimal digit.
pub open spec fn is_digit(c: char) -> bool {
    '0' <= c && c <= '9'
}

/// The numeric value of a string of decimal digits, most significant first.
pub open spec fn digits_val(ds: Seq<char>) -> int
    decreases ds.len(),
{
    if ds.len() == 0 {
        0
    } else {
        10 * digits_val(ds.drop_last()) + (ds.last() as int - '0' as int)
    }
}

/// The length of the longest all-digit prefix of `t`.
pub open spec fn digits_len(t: Seq<char>) -> int
    decreases t.len(),
{
    if t.len() == 0 || !is_digit(t[0]) {
        0
    } else {
        1 + digits_len(t.drop_first())
    }
}

/// The length of the segment that starts `t`: the longest prefix free of the
/// `/` separator.
pub open spec fn seg_len(t: Seq<char>) -> int
    decreases t.len(),
{
    if t.len() == 0 || t[0] == '/' {
        0
    } else {
        1 + seg_len(t.drop_first())
    }
}

/// Decodes the characters of one raw segment: `~0` stands for `~`, `~1` for
/// `/`, and `~` before any other character is a malformed escape (`None`).
/// A trailing lone `~` is a literal `~`, but only at the very end of the
/// input (`at_input_end`); at an inner segment end the separator after it
/// would have been taken as the escaped character.
pub open spec fn decode_name(seg: Seq<char>, at_input_end: bool) -> Option<Seq<char>>
    decreases seg.len(),
{
    if seg.len() == 0 {
        Some(Seq::empty())
    } else if seg[0] == '~' {
        if seg.len() == 1 {
            if at_input_end {
                Some(seq!['~'])
            } else {
                None
            }
        } else if seg[1] == '0' {
            match decode_name(seg.skip(2), at_input_end) {
                Some(r) => Some(seq!['~'].add(r)),
                None => None,
            }
        } else if seg[1] == '1' {
            match decode_name(seg.skip(2), at_input_end) {
                Some(r) => Some(seq!['/'].add(r)),
                None => None,
            }
        } else {
            None
        }
    } else {
        match decode_name(seg.drop_first(), at_input_end) {
            Some(r) => Some(seq![seg[0]].add(r)),
            None => None,
        }
    }
}

/// The segment decoded as a name step, if its escapes are well formed.
pub open spec fn name_step(seg: Seq<char>, at_input_end: bool) -> Option<SpecStep> {
    match decode_name(seg, at_input_end) {
        Some(n) => Some(SpecStep::Name(n)),
        None => None,
    }
}

/// Classifies one raw segment, in order of precedence: an index (digits with
/// no leading zero, in range of `usize`), the append marker `-`, or a name.
/// A segment of digits whose value overflows `usize` falls back to a name,
/// while digits followed by other characters are a grammar error (`None`),
/// as is a malformed escape in a name.
pub open spec fn classify_segment(seg: Seq<char>, at_input_end: bool) -> Option<SpecStep> {
    if seg.len() == 0 {
        Some(SpecStep::Name(Seq::empty()))
    } else if seg[0] == '0' {
        if seg.len() == 1 {
            Some(SpecStep::Index(0))
        } else {
            name_step(seg, at_input_end)
        }
    } else if is_digit(seg[0]) {
        let k = digits_len(seg);
        let dv = digits_val(seg.take(k));
        if dv > usize::MAX as int {
            name_step(seg, at_input_end)
        } else if k == seg.len() {
            Some(SpecStep::Index(dv))
        } else {
            None
        }
    } else if seg[0] == '-' {
        if seg.len() == 1 {
            Some(SpecStep::NewElement)
        } else {
            name_step(seg, at_input_end)
        }
    } else {
        name_step(seg, at_input_end)
    }
}

/// `seg_len` lies between 0 and the length of the text, the prefix it marks
/// off is free of separators, and it ends only at a separator or the end.
pub proof fn lemma_seg_len(t: Seq<char>)
    ensures
        0 <= seg_len(t) <= t.len(),
        forall|i: int| 0 <= i < seg_len(t) ==> t[i] != '/',
        seg_len(t) < t.len() ==> t[seg_len(t)] == '/',
    decreases t.len(),
{
    if t.len() > 0 && t[0] != '/' {
        lemma_seg_len(t.drop_first());
        assert forall|i: int| 0 <= i < seg_len(t) implies t[i] != '/' by {
            if i > 0 {
                assert(t[i] == t.drop_first()[i - 1]);
            }
        }
    }
}

/// The token sequence of the pointer text `t` (after fragment stripping):
/// zero or more segments, each introduced by a `/` separator.
pub open spec fn spec_steps(t: Seq<char>) -> Option<Seq<SpecStep>>
    decreases t.len(),
    via spec_steps_decreases
{
    if t.len() == 0 {
        Some(Seq::empty())
    } else if t[0] != '/' {
        None
    } else {
        let rest = t.drop_first();
        let k = seg_len(rest);
        let seg = rest.take(k);
        let tail = rest.skip(k);
        match classify_segment(seg, tail.len() == 0) {
            Some(step) => match spec_steps(tail) {
                Some(more) => Some(seq![step].add(more)),
                None => None,
            },
            None => None,
        }
    }
}

#[via_fn]
proof fn spec_steps_decreases(t: Seq<char>) {
    if t.len() > 0 && t[0] == '/' {
        lemma_seg_len(t.drop_first());
    }
}

/// What parsing the pointer text `s` yields: one optional leading `#` is
/// discarded, then the segment grammar must consume the whole rest.
pub open spec fn spec_parse(s: Seq<char>) -> Option<Seq<SpecStep>> {
    if s.len() > 0 && s[0] == '#' {
        spec_steps(s.drop_first())
    } else {
        spec_steps(s)
    }
}

/// Parsing is indifferent to the URI-fragment form: pointer text that is
/// empty or begins with its first separator parses to the very same token
/// sequence whether or not one leading `#` stands before it.
pub proof fn lemma_fragment_indifferent(s: Seq<char>)
    requires
        s.len() == 0 || s[0] == '/',
    ensures
        spec_parse(seq!['#'].add(s)) == spec_parse(s),
{
    let h = seq!['#'].add(s);
    assert(h[0] == '#');
    assert(h.drop_first() =~= s);
}

/// `seg_len` is pinned down by its characterisation: a separator-free prefix
/// ended by a separator or the end of the text.
proof fn lemma_seg_len_is(t: Seq<char>, k: int)
    requires
        0 <= k <= t.len(),
        forall|i: int| 0 <= i < k ==> t[i] != '/',
        k < t.len() ==> t[k] == '/',
    ensures
        seg_len(t) == k,
    decreases t.len(),
{
    if t.len() > 0 && t[0] != '/' {
        lemma_seg_len_is(t.drop_first(), k - 1);
    }
}

/// `digits_len` is pinned down by its characterisation: an all-digit prefix
/// ended by a non-digit or the end of the text.
proof fn lemma_digits_len_is(t: Seq<char>, k: int)
    requires
        0 <= k <= t.len(),
        forall|i: int| 0 <= i < k ==> is_digit(t[i]),
        k < t.len() ==> !is_digit(t[k]),
    ensures
        digits_len(t) == k,
    decreases t.len(),
{
    if t.len() > 0 && is_digit(t[0]) {
        lemma_digits_len_is(t.drop_first(), k - 1);
    }
}

/// A digit string has a non-negative value.
proof fn lemma_digits_val_nonneg(ds: Seq<char>)
    requires
        forall|i: int| 0 <= i < ds.len() ==> is_digit(ds[i]),
    ensures
        digits_val(ds) >= 0,
    decreases ds.len(),
{
    if ds.len() > 0 {
        lemma_digits_val_nonneg(ds.drop_last());
    }
}

/// A longer digit prefix never has a smaller value.
proof fn lemma_digits_val_monotone(ds: Seq<char>, j: int, m: int)
    requires
        0 <= j <= m <= ds.len(),
        forall|i: int| 0 <= i < ds.len() ==> is_digit(ds[i]),
    ensures
        digits_val(ds.take(j)) <= digits_val(ds.take(m)),
    decreases m - j,
{
    if j < m {
        lemma_digits_val_monotone(ds, j, m - 1);
        assert(ds.take(m).drop_last() =~= ds.take(m - 1));
        lemma_digits_val_nonneg(ds.take(m - 1));
    }
}

/// Decodes one raw segment into the text of a name step, from position `i` up
/// to the exclusive segment end `end`.
fn parse_name(s: &str, i: usize, end: usize) -> (r: Result<String, ParseError>)
    requires
        i <= end <= s@.len(),
    ensures
        ({
            let seg = s@.subrange(i as int, end as int);
            match decode_name(seg, end == s@.len()) {
                Some(nm) => r matches Ok(out) && out@ == nm,
                None => r is Err,
            }
        }),
    decreases end - i,
{
    let ghost seg = s@.subrange(i as int, end as int);
    if i == end {
        Ok(String::new())
    } else {
        let c = s.get_char(i);
        if c == '~' {
            if i + 1 < end {
                let e = s.get_char(i + 1);
                if e == '0' || e == '1' {
                    proof {
                        assert(seg.skip(2) =~= s@.subrange(i + 2, end as int));
                    }
                    match parse_name(s, i + 2, end) {
                        Ok(rest) => {
                            let head = if e == '0' {
                                "~"
                            } else {
                                "/"
                            };
                            let out = head.to_owned().concat(rest.as_str());
                            proof {
                                reveal_strlit("~");
                                reveal_strlit("/");
                                if e == '0' {
                                    assert(out@ =~= seq!['~'].add(rest@));
                                } else {
                                    assert(out@ =~= seq!['/'].add(rest@));
                                }
                            }
                            Ok(out)
                        },
                        Err(er) => Err(er),
                    }
                } else {
                    Err(ParseError { error: "invalid escape sequence in JSON Pointer".to_owned() })
                }
            } else {
                let n = s.unicode_len();
                if end == n {
                    let out = "~".to_owned();
                    proof {
                        reveal_strlit("~");
                        assert(out@ =~= seq!['~']);
                    }
                    Ok(out)
                } else {
                    Err(ParseError { error: "invalid escape sequence in JSON Pointer".to_owned() })
                }
            }
        } else {
            proof {
                assert(seg.drop_first() =~= s@.subrange(i + 1, end as int));
            }
            match parse_name(s, i + 1, end) {
                Ok(rest) => {
                    let head = s.substring_char(i, i + 1);
                    let out = head.to_owned().concat(rest.as_str());
                    proof {
                        assert(out@ =~= seq![seg[0]].add(rest@));
                    }
                    Ok(out)
                },
                Err(er) => Err(er),
            }
        }
    }
}

/// Whether a character is a decimal digit.
fn digit_char(c: char) -> (r: bool)
    ensures
        r == is_digit(c),
{
    let d = c as u32;
    48 <= d && d <= 57
}

/// Parses the raw segment that starts at `start` (just past its `/`
/// separator) and classifies it; returns the step and the position of the
/// next separator or of the end of the input.
fn parse_segment(s: &str, start: usize) -> (r: Result<(Step, usize), ParseError>)
    requires
        start <= s@.len(),
    ensures
        ({
            let t = s@.skip(start as int);
            let seg = t.take(seg_len(t));
            match classify_segment(seg, start + seg_len(t) == s@.len()) {
                Some(st) => r matches Ok(p) && p.0@ == st && p.1 == start + seg_len(t),
                None => r is Err,
            }
        }),
{
    let ghost t = s@.skip(start as int);
    let n = s.unicode_len();
    let mut end = start;
    while end < n && s.get_char(end) != '/'
        invariant
            start <= end <= n,
            n == s@.len(),
            forall|i: int| start <= i < end ==> s@[i] != '/',
        decreases n - end,
    {
        end = end + 1;
    }
    proof {
        assert forall|i: int| 0 <= i < end - start implies t[i] != '/' by {
            assert(t[i] == s@[start + i]);
        }
        if end < n {
            assert(t[end - start] == s@[end as int]);
        }
        lemma_seg_len_is(t, end - start);
    }
    let ghost seg = t.take(seg_len(t));
    proof {
        assert(seg =~= s@.subrange(start as int, end as int));
    }
    if end == start {
        let nm = String::new();
        return Ok((Step::Name(nm), end));
    }
    let c0 = s.get_char(start);
    if c0 == '0' && end == start + 1 {
        return Ok((Step::Index(0), end));
    }
    let d0 = c0 as u32;
    if 48 <= d0 && d0 <= 57 && c0 != '0' {
        // a run of digits with no leading zero: an index candidate
        let mut de = start;
        while de < end && digit_char(s.get_char(de))
            invariant
                start <= de <= end <= n,
                n == s@.len(),
                forall|i: int| start <= i < de ==> is_digit(s@[i]),
            decreases end - de,
        {
            de = de + 1;
        }
        proof {
            assert forall|i: int| 0 <= i < de - start implies is_digit(seg[i]) by {
                assert(seg[i] == s@[start + i]);
            }
            if de - start < seg.len() {
                assert(seg[de - start] == s@[de as int]);
            }
            lemma_digits_len_is(seg, de - start);
        }
        let ghost ds = seg.take(de - start);
        let mut val: usize = 0;
        let mut j = start;
        let mut overflow = false;
        while j < de && !overflow
            invariant
                start <= j <= de <= end <= n,
                n == s@.len(),
                ds == seg.take(de - start),
                ds.len() == de - start,
                forall|i: int| 0 <= i < ds.len() ==> is_digit(ds[i]) && ds[i] == s@[start + i],
                !overflow ==> val == digits_val(ds.take(j - start)),
                overflow ==> digits_val(ds.take(j - start)) > usize::MAX as int,
            decreases de - j,
        {
            let c = s.get_char(j);
            proof {
                assert(ds[j - start] == s@[j as int]);
            }
            let d: u32 = (c as u32) - 48;
            let prod: u128 = (val as u128) * 10 + (d as u128);
            proof {
                assert(ds.take(j + 1 - start).drop_last() =~= ds.take(j - start));
                assert(ds.take(j + 1 - start).last() == c);
            }
            if prod > usize::MAX as u128 {
                overflow = true;
            } else {
                val = prod as usize;
            }
            j = j + 1;
        }
        if overflow {
            proof {
                assert(ds.take(j - start) =~= ds.take(j - start));
                lemma_digits_val_monotone(ds, j - start, de - start);
                assert(ds.take(de - start) =~= ds);
            }
            // the numeral does not fit an index: the segment is a plain name
            match parse_name(s, start, end) {
                Ok(nm) => Ok((Step::Name(nm), end)),
                Err(er) => Err(er),
            }
        } else if de == end {
            proof {
                assert(ds.take(j - start) =~= ds);
            }
            Ok((Step::Index(val), end))
        } else {
            proof {
                assert(ds.take(j - start) =~= ds);
            }
            // digits followed by other characters never form a valid segment
            Err(ParseError { error: "trailing characters after an index segment".to_owned() })
        }
    } else if c0 == '-' && end == start + 1 {
        Ok((Step::NewElement, end))
    } else {
        match parse_name(s, start, end) {
            Ok(nm) => Ok((Step::Name(nm), end)),
            Err(er) => Err(er),
        }
    }
}

/// Parses the run of `/`-introduced segments that starts at `pos`, which must
/// reach the end of the input.
fn parse_steps(s: &str, pos: usize) -> (r: Result<Vec<Step>, ParseError>)
    requires
        pos <= s@.len(),
    ensures
        ({
            match spec_steps(s@.skip(pos as int)) {
                Some(sts) => r matches Ok(v) && crate::pointer::steps_model(v@) == sts,
                None => r is Err,
            }
        }),
    decreases s@.len() - pos,
{
    let ghost t = s@.skip(pos as int);
    let n = s.unicode_len();
    if pos == n {
        let v: Vec<Step> = Vec::new();
        proof {
            assert(crate::pointer::steps_model(v@) =~= Seq::<SpecStep>::empty());
        }
        return Ok(v);
    }
    let c = s.get_char(pos);
    if c != '/' {
        return Err(ParseError { error: "a JSON Pointer segment must begin with '/'".to_owned() });
    }
    proof {
        assert(t.drop_first() =~= s@.skip(pos + 1));
        lemma_seg_len(t.drop_first());
    }
    match parse_segment(s, pos + 1) {
        Err(er) => Err(er),
        Ok((step, end)) => {
            proof {
                let rest = t.drop_first();
                assert(rest.take(seg_len(rest)) =~= s@.skip(pos + 1).take(
                    seg_len(s@.skip(pos + 1))));
                assert(rest.skip(seg_len(rest)) =~= s@.skip(end as int));
            }
            match parse_steps(s, end) {
                Err(er) => Err(er),
                Ok(mut rest_steps) => {
                    rest_steps.insert(0, step);
                    proof {
                        let whole = crate::pointer::steps_model(rest_steps@);
                        let more = crate::pointer::steps_model(rest_steps@.drop_first());
                        assert(whole =~= seq![step@].add(more));
                    }
                    Ok(rest_steps)
                },
            }
        },
    }
}

/// Parses RFC 6901 pointer text, with one optional leading `#` (the
/// URI-fragment form), into a pointer. Succeeds exactly on text that the
/// pointer grammar fully consumes; a malformed escape sequence or unparseable
/// residue yields a `ParseError`.
pub fn parse(s: &str) -> (r: Result<Pointer, ParseError>)
    ensures
        match spec_parse(s@) {
            Some(sts) => r matches Ok(p) && p@ == sts,
            None => r is Err,
        },
{
    let n = s.unicode_len();
    let start: usize = if n > 0 && s.get_char(0) == '#' {
        1
    } else {
        0
    };
    proof {
        if n > 0 && s@[0] == '#' {
            assert(s@.skip(1) =~= s@.drop_first());
        } else {
            assert(s@.skip(0) =~= s@);
        }
    }
    match parse_steps(s, start) {
        Ok(v) => Ok(Pointer::from_steps(v)),
        Err(er) => Err(er),
    }
}

} // verus!
