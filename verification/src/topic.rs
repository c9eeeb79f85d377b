use vstd::prelude::*;

use crate::error::PubSubError;
use crate::seqs::count_of;
use crate::text::{decimal, push_decimal};
use vstd::utf8::encode_utf8;

verus! {

/// A validated subject string used for topic-based pub/sub routing.
///
/// Subjects use `.` as a token separator. Wildcards are supported:
/// - `*` matches exactly one token
/// - `>` matches one or more tokens (must be last token)
///
/// Examples: `sensors.temp.room1`, `sensors.*.room1`, `sensors.>`
#[derive(Debug, PartialEq, Eq, Hash)]
pub struct Subject(String);

impl Clone for Subject {
    fn clone(&self) -> (c: Self)
        ensures
            c@ == self@,
    {
        proof {
            use_type_invariant(self);
        }
        Subject(self.0.clone())
    }
}

impl View for Subject {
    type V = Seq<char>;

    closed spec fn view(&self) -> Seq<char> {
        self.0@
    }
}

impl Subject {
    /// Every subject's text passes validation (so it is at most
    /// `MAX_SUBJECT_LEN` characters long, each taking at least one byte).
    #[verifier::type_invariant]
    spec fn text_is_valid(self) -> bool {
        &&& subject_error(self.0@) is None
        &&& self.0@.len() <= MAX_SUBJECT_LEN
    }

    /// Validates `raw` and wraps it; fails exactly when `subject_rejection`
    /// names a reason, which the error then carries.
    pub fn new(raw: &str) -> (r: Result<Subject, PubSubError>)
        ensures
            match r {
                Ok(s) => s@ == raw@ && subject_error(raw@) is None,
                Err(e) => subject_error(raw@) matches Some(why) && e matches
                    PubSubError::InvalidSubject { reason } && reason@ == why,
            },
    {
        match validate_subject(raw) {
            Ok(()) => {
                let nbytes = raw.as_bytes().len();
                proof {
                    lemma_utf8_len_at_least_chars(raw@);
                    assert(nbytes == encode_utf8(raw@).len());
                }
                Ok(Subject(raw.to_owned()))
            },
            Err(e) => Err(e),
        }
    }

    /// The subject text, which is always a valid subject.
    pub fn as_str(&self) -> (r: &str)
        ensures
            r@ == self@,
            subject_error(r@) is None,
    {
        proof {
            use_type_invariant(self);
        }
        self.0.as_str()
    }

    /// The dot-separated tokens, in order: at least one, each non-empty and
    /// free of dots, and joined with `.` they give the subject back.
    pub fn tokens(&self) -> (r: Vec<String>)
        ensures
            r@.len() == split_dots(self@).len(),
            forall|k: int| 0 <= k < r@.len() ==> (#[trigger] r@[k])@ == split_dots(self@)[k],
            r@.len() >= 1,
            forall|k: int|
                0 <= k < r@.len() ==> (#[trigger] r@[k])@.len() > 0 && !r@[k]@.contains('.'),
            join_dots(strings_view(r@)) == self@,
    {
        proof {
            use_type_invariant(self);
            lemma_tokens_of_valid(self@);
        }
        split_tokens(self.0.as_str())
    }

    /// Whether the subject holds a `*` or a `>` anywhere.
    pub fn is_wildcard(&self) -> (r: bool)
        ensures
            r == has_wildcard_char(self@),
    {
        let chars = chars_of(self.0.as_str());
        assert(chars@.subrange(0, chars@.len() as int) =~= chars@);
        range_has_wildcard_char(&chars, 0, chars.len())
    }

    /// The number of dot-separated tokens: one more than the number of dots,
    /// and at most 128 (each token takes a character and a dot sits between
    /// two, within `MAX_SUBJECT_LEN`).
    pub fn token_count(&self) -> (r: usize)
        ensures
            r == split_dots(self@).len(),
            r == count_of(self@, '.') + 1,
            1 <= r <= 128,
    {
        proof {
            use_type_invariant(self);
            lemma_tokens_of_valid(self@);
            lemma_split_count(self@);
            lemma_join_len(split_dots(self@));
        }
        let chars = chars_of(self.0.as_str());
        token_bounds(&chars).len()
    }

    /// The subject text as an owned string (what `Display` prints); it is a
    /// valid subject, so `Subject::new` on it gives this subject back.
    pub fn to_string(&self) -> (r: String)
        ensures
            r@ == self@,
            subject_error(r@) is None,
    {
        proof {
            use_type_invariant(self);
        }
        self.0.clone()
    }
}

/// The dot-separated tokens of `s`, as owned strings.
pub fn split_tokens(s: &str) -> (r: Vec<String>)
    ensures
        strings_view(r@) == split_dots(s@),
        r@.len() == split_dots(s@).len(),
        forall|k: int| 0 <= k < r@.len() ==> (#[trigger] r@[k])@ == split_dots(s@)[k],
{
    let chars = chars_of(s);
    let bounds = token_bounds(&chars);
    let mut out: Vec<String> = Vec::new();
    let mut k: usize = 0;
    while k < bounds.len()
        invariant
            chars@ == s@,
            k <= bounds@.len() == split_dots(chars@).len(),
            out@.len() == k,
            forall|q: int|
                0 <= q < bounds@.len() ==> {
                    &&& (#[trigger] bounds@[q]).0 <= bounds@[q].1 <= chars@.len()
                    &&& chars@.subrange(bounds@[q].0 as int, bounds@[q].1 as int) == split_dots(
                        chars@,
                    )[q]
                },
            forall|q: int| 0 <= q < k ==> (#[trigger] out@[q])@ == split_dots(s@)[q],
        decreases bounds@.len() - k,
    {
        let (a, b) = bounds[k];
        out.push(s.substring_char(a, b).to_owned());
        k = k + 1;
    }
    assert(strings_view(out@) =~= split_dots(s@));
    out
}

/// Maximum allowed subject length in bytes.
pub const MAX_SUBJECT_LEN: usize = 256;

/// The tokens of `s` separated by `.`: maximal dot-free segments, read left to
/// right; the empty string has one empty token, and two adjacent dots enclose
/// an empty token.
pub open spec fn split_dots(s: Seq<char>) -> Seq<Seq<char>>
    decreases s.len(),
{
    if s.len() == 0 {
        seq![Seq::<char>::empty()]
    } else {
        let prev = split_dots(s.drop_last());
        if s.last() == '.' {
            prev.push(Seq::<char>::empty())
        } else {
            prev.update(prev.len() - 1, prev.last().push(s.last()))
        }
    }
}

pub proof fn lemma_split_dots_nonempty(s: Seq<char>)
    ensures
        split_dots(s).len() >= 1,
    decreases s.len(),
{
    if s.len() > 0 {
        lemma_split_dots_nonempty(s.drop_last());
    }
}

/// The characters of each string, in order.
pub open spec fn strings_view(v: Seq<String>) -> Seq<Seq<char>> {
    v.map_values(|s: String| s@)
}

/// The token `>` (match one or more trailing tokens).
pub open spec fn full_wildcard_token() -> Seq<char> {
    seq!['>']
}

/// The token `*` (match exactly one token).
pub open spec fn single_wildcard_token() -> Seq<char> {
    seq!['*']
}

pub open spec fn has_wildcard_char(t: Seq<char>) -> bool {
    t.contains('*') || t.contains('>')
}

/// Why the token list `toks` is rejected, looking at tokens from index `i` on
/// in order, or `None` when every one of them is acceptable.
pub open spec fn token_rejection(toks: Seq<Seq<char>>, i: int) -> Option<Seq<char>>
    decreases toks.len() - i,
{
    if i < 0 || i >= toks.len() {
        None
    } else if toks[i].len() == 0 {
        Some("subject contains an empty token"@)
    } else if toks[i] == full_wildcard_token() && i != toks.len() - 1 {
        Some("'>' wildcard must be the last token"@)
    } else if has_wildcard_char(toks[i]) && toks[i].len() > 1 {
        Some("wildcard token '"@ + toks[i] + "' must stand alone"@)
    } else {
        token_rejection(toks, i + 1)
    }
}

pub open spec fn has_double_dot(s: Seq<char>) -> bool {
    exists|i: int| 0 <= i && i + 1 < s.len() && #[trigger] s[i] == '.' && s[i + 1] == '.'
}

/// Why the subject with characters `s` and UTF-8 length `nbytes` is rejected,
/// checking in this order: emptiness, length, a dot at either end, two
/// adjacent dots, then each token; `None` when it is a valid subject.
pub open spec fn subject_rejection(s: Seq<char>, nbytes: nat) -> Option<Seq<char>> {
    if s.len() == 0 {
        Some("subject cannot be empty"@)
    } else if nbytes > MAX_SUBJECT_LEN {
        Some(
            "subject exceeds maximum length of "@ + decimal(MAX_SUBJECT_LEN as nat)
                + " bytes (got "@ + decimal(nbytes) + ")"@,
        )
    } else if s[0] == '.' || s.last() == '.' {
        Some("subject cannot start or end with '.'"@)
    } else if has_double_dot(s) {
        Some("subject cannot contain empty tokens (double dots)"@)
    } else {
        token_rejection(split_dots(s), 0)
    }
}

/// The UTF-8 length in bytes of the text `s` (what `str::len` reports).
pub open spec fn utf8_len(s: Seq<char>) -> nat {
    (encode_utf8(s).len() as usize) as nat
}

/// Why the text `s` is not a valid subject, or `None` when it is one.
pub open spec fn subject_error(s: Seq<char>) -> Option<Seq<char>> {
    subject_rejection(s, utf8_len(s))
}

/// The subject grammar: at most `MAX_SUBJECT_LEN` bytes, dot-separated
/// non-empty tokens, `>` only as the last token, and `*` or `>` only as a
/// whole token.
pub open spec fn is_valid_subject(s: Seq<char>) -> bool {
    let toks = split_dots(s);
    &&& utf8_len(s) <= MAX_SUBJECT_LEN
    &&& forall|k: int| 0 <= k < toks.len() ==> (#[trigger] toks[k]).len() > 0
    &&& forall|k: int|
        0 <= k < toks.len() && #[trigger] toks[k] == full_wildcard_token() ==> k == toks.len() - 1
    &&& forall|k: int| 0 <= k < toks.len() && has_wildcard_char(#[trigger] toks[k]) ==> toks[k].len() == 1
}

proof fn lemma_split_last_empty(s: Seq<char>)
    ensures
        split_dots(s).last().len() == 0 <==> (s.len() == 0 || s.last() == '.'),
    decreases s.len(),
{
    lemma_split_dots_nonempty(s);
    if s.len() > 0 {
        lemma_split_dots_nonempty(s.drop_last());
        lemma_split_last_empty(s.drop_last());
    }
}

proof fn lemma_double_dot_step(s: Seq<char>)
    requires
        s.len() >= 2,
    ensures
        has_double_dot(s) <==> (has_double_dot(s.drop_last()) || (s.last() == '.' && s.drop_last().last() == '.')),
{
    let p = s.drop_last();
    if has_double_dot(s) {
        let i = choose|i: int| 0 <= i && i + 1 < s.len() && #[trigger] s[i] == '.' && s[i + 1] == '.';
        if i + 1 < p.len() {
            assert(p[i] == '.' && p[i + 1] == '.');
        }
    }
    if has_double_dot(p) {
        let i = choose|i: int| 0 <= i && i + 1 < p.len() && #[trigger] p[i] == '.' && p[i + 1] == '.';
        assert(s[i] == '.' && s[i + 1] == '.');
    }
    if s.last() == '.' && p.last() == '.' {
        let i = s.len() - 2;
        assert(s[i] == '.' && s[i + 1] == '.');
    }
}

/// An empty token other than the last one comes from a leading dot or two
/// adjacent dots.
proof fn lemma_split_inner_empty(s: Seq<char>)
    ensures
        (exists|k: int| 0 <= k < split_dots(s).len() - 1 && (#[trigger] split_dots(s)[k]).len() == 0)
            <==> (s.len() > 0 && (s[0] == '.' || has_double_dot(s))),
    decreases s.len(),
{
    lemma_split_dots_nonempty(s);
    if s.len() == 0 {
    } else {
        let p = s.drop_last();
        let tp = split_dots(p);
        let ts = split_dots(s);
        lemma_split_dots_nonempty(p);
        lemma_split_inner_empty(p);
        lemma_split_last_empty(p);
        if s.len() >= 2 {
            lemma_double_dot_step(s);
            assert(s[0] == p[0]);
        } else {
            assert(!has_double_dot(s));
            assert(!has_double_dot(p));
        }
        if s.last() == '.' {
            assert(ts == tp.push(Seq::<char>::empty()));
            if exists|k: int| 0 <= k < ts.len() - 1 && (#[trigger] ts[k]).len() == 0 {
                let k = choose|k: int| 0 <= k < ts.len() - 1 && (#[trigger] ts[k]).len() == 0;
                assert(tp[k] == ts[k]);
                if k < tp.len() - 1 {
                } else {
                    assert(tp.last() == tp[k]);
                }
            }
            if s.len() > 0 && (s[0] == '.' || has_double_dot(s)) {
                if p.len() == 0 || p.last() == '.' {
                    let k = tp.len() - 1;
                    assert(ts[k] == tp.last());
                } else {
                    let k = choose|k: int| 0 <= k < tp.len() - 1 && (#[trigger] tp[k]).len() == 0;
                    assert(ts[k] == tp[k]);
                }
            }
        } else {
            assert(ts == tp.update(tp.len() - 1, tp.last().push(s.last())));
            if exists|k: int| 0 <= k < ts.len() - 1 && (#[trigger] ts[k]).len() == 0 {
                let k = choose|k: int| 0 <= k < ts.len() - 1 && (#[trigger] ts[k]).len() == 0;
                assert(tp[k] == ts[k]);
            }
            if p.len() > 0 && (p[0] == '.' || has_double_dot(p)) {
                let k = choose|k: int| 0 <= k < tp.len() - 1 && (#[trigger] tp[k]).len() == 0;
                assert(ts[k] == tp[k]);
            }
            if p.len() == 0 {
                assert(s[0] == s.last());
            }
        }
    }
}

proof fn lemma_token_rejection_none(toks: Seq<Seq<char>>, i: int)
    requires
        0 <= i <= toks.len(),
    ensures
        token_rejection(toks, i) is None <==> (forall|k: int|
            i <= k < toks.len() ==> {
                &&& (#[trigger] toks[k]).len() > 0
                &&& toks[k] == full_wildcard_token() ==> k == toks.len() - 1
                &&& has_wildcard_char(toks[k]) ==> toks[k].len() == 1
            }),
    decreases toks.len() - i,
{
    if i < toks.len() {
        lemma_token_rejection_none(toks, i + 1);
    }
}

/// A text is refused as a subject exactly when it breaks the subject
/// grammar.
pub proof fn lemma_subject_error_iff_invalid(s: Seq<char>)
    ensures
        subject_error(s) is None <==> is_valid_subject(s),
{
    let toks = split_dots(s);
    lemma_split_dots_nonempty(s);
    lemma_split_inner_empty(s);
    lemma_split_last_empty(s);
    lemma_token_rejection_none(toks, 0);
    let all_nonempty = forall|k: int| 0 <= k < toks.len() ==> (#[trigger] toks[k]).len() > 0;
    if all_nonempty {
        assert(toks.last() == toks[toks.len() - 1]);
        if s.len() > 0 && (s[0] == '.' || has_double_dot(s)) {
            let k = choose|k: int| 0 <= k < toks.len() - 1 && (#[trigger] toks[k]).len() == 0;
        }
    } else {
        let k = choose|k: int| 0 <= k < toks.len() && (#[trigger] toks[k]).len() == 0;
        if k == toks.len() - 1 {
            assert(toks.last() == toks[k]);
        }
        assert(subject_error(s) is Some);
    }
    if is_valid_subject(s) {
        assert(forall|k: int| 0 <= k < toks.len() ==> (#[trigger] toks[k]).len() > 0);
    }
}

/// The tokens `t` joined with `.` between each two.
pub open spec fn join_dots(t: Seq<Seq<char>>) -> Seq<char>
    decreases t.len(),
{
    if t.len() == 0 {
        Seq::empty()
    } else if t.len() == 1 {
        t[0]
    } else {
        join_dots(t.drop_last()) + seq!['.'] + t.last()
    }
}

/// Joining the tokens of `s` with `.` gives `s` back.
proof fn lemma_join_split(s: Seq<char>)
    ensures
        join_dots(split_dots(s)) == s,
    decreases s.len(),
{
    if s.len() == 0 {
        assert(join_dots(split_dots(s)) =~= s);
    } else {
        let p = s.drop_last();
        let tp = split_dots(p);
        let ts = split_dots(s);
        lemma_join_split(p);
        lemma_split_dots_nonempty(p);
        if s.last() == '.' {
            assert(ts == tp.push(Seq::<char>::empty()));
            assert(ts.drop_last() =~= tp);
            assert(join_dots(ts) =~= s);
        } else {
            let c = s.last();
            assert(ts == tp.update(tp.len() - 1, tp.last().push(c)));
            if tp.len() == 1 {
                assert(join_dots(ts) =~= s);
            } else {
                assert(ts.drop_last() =~= tp.drop_last());
                assert(join_dots(ts) =~= join_dots(tp).push(c));
                assert(s =~= p.push(c));
            }
        }
    }
}

/// No token of `s` holds a dot.
proof fn lemma_split_no_dots(s: Seq<char>)
    ensures
        forall|k: int| 0 <= k < split_dots(s).len() ==> !(#[trigger] split_dots(s)[k]).contains('.'),
    decreases s.len(),
{
    if s.len() > 0 {
        let p = s.drop_last();
        let tp = split_dots(p);
        let ts = split_dots(s);
        lemma_split_no_dots(p);
        lemma_split_dots_nonempty(p);
        assert forall|k: int| 0 <= k < ts.len() implies !(#[trigger] ts[k]).contains('.') by {
            if k < tp.len() - 1 {
                assert(ts[k] == tp[k]);
            } else if s.last() == '.' {
                if k == tp.len() - 1 {
                    assert(ts[k] == tp[k]);
                } else {
                    assert(ts[k] =~= Seq::<char>::empty());
                }
            } else {
                let t = tp.last().push(s.last());
                assert(ts[k] == t);
                if t.contains('.') {
                    let i = choose|i: int| 0 <= i < t.len() && t[i] == '.';
                    assert(tp[tp.len() - 1][i] == '.');
                }
            }
        }
    }
}

/// There is one more token than there are dots.
proof fn lemma_split_count(s: Seq<char>)
    ensures
        split_dots(s).len() == count_of(s, '.') + 1,
    decreases s.len(),
{
    if s.len() > 0 {
        lemma_split_count(s.drop_last());
        lemma_split_dots_nonempty(s.drop_last());
    }
}

/// Non-empty tokens joined with dots take at least two characters per token
/// but the last.
proof fn lemma_join_len(t: Seq<Seq<char>>)
    requires
        t.len() >= 1,
        forall|k: int| 0 <= k < t.len() ==> (#[trigger] t[k]).len() > 0,
    ensures
        join_dots(t).len() + 1 >= 2 * t.len(),
    decreases t.len(),
{
    if t.len() > 1 {
        assert forall|k: int| 0 <= k < t.drop_last().len() implies (#[trigger] t.drop_last()[k]).len() > 0 by {
            assert(t.drop_last()[k] == t[k]);
        }
        lemma_join_len(t.drop_last());
        assert(t.last() == t[t.len() - 1]);
    } else {
        assert(t[0].len() > 0);
    }
}

/// Every character takes at least one byte in UTF-8.
proof fn lemma_utf8_len_at_least_chars(s: Seq<char>)
    ensures
        encode_utf8(s).len() >= s.len(),
    decreases s.len(),
{
    if s.len() > 0 {
        lemma_utf8_len_at_least_chars(s.drop_first());
    }
}

/// A text without dots is a single token.
pub proof fn lemma_split_no_dot_text(s: Seq<char>)
    requires
        !s.contains('.'),
    ensures
        split_dots(s) == seq![s],
    decreases s.len(),
{
    if s.len() == 0 {
        assert(s =~= Seq::<char>::empty());
        assert(split_dots(s) =~= seq![s]);
    } else {
        let p = s.drop_last();
        if p.contains('.') {
            let i = choose|i: int| 0 <= i < p.len() && p[i] == '.';
            assert(s[i] == '.');
        }
        lemma_split_no_dot_text(p);
        assert(s[s.len() - 1] != '.');
        assert(s.last() != '.');
        assert(p.push(s.last()) =~= s);
        let prev = split_dots(p);
        assert(prev.last() == p);
        assert(split_dots(s) == prev.update(prev.len() - 1, prev.last().push(s.last())));
        assert(split_dots(s) =~= seq![s]);
    }
}

/// The tokens of `a`, a dot, then `b` are the tokens of `a` followed by those
/// of `b`.
pub proof fn lemma_split_at_dot(a: Seq<char>, b: Seq<char>)
    ensures
        split_dots(a + seq!['.'] + b) == split_dots(a) + split_dots(b),
    decreases b.len(),
{
    let s = a + seq!['.'] + b;
    lemma_split_dots_nonempty(a);
    if b.len() == 0 {
        assert(s.drop_last() =~= a);
        assert(s.last() == '.');
        assert(split_dots(s) =~= split_dots(a) + split_dots(b));
    } else {
        let bp = b.drop_last();
        lemma_split_at_dot(a, bp);
        lemma_split_dots_nonempty(bp);
        assert(s.drop_last() =~= a + seq!['.'] + bp);
        assert(s.last() == b.last());
        let t = split_dots(a) + split_dots(bp);
        if b.last() == '.' {
            assert(split_dots(s) =~= split_dots(a) + split_dots(b));
        } else {
            let c = b.last();
            let u = split_dots(bp);
            assert(split_dots(b) == u.update(u.len() - 1, u.last().push(c)));
            assert(split_dots(s) == t.update(t.len() - 1, t.last().push(c)));
            assert(t.last() == u.last());
            assert(split_dots(s) =~= split_dots(a) + split_dots(b));
        }
    }
}

/// The tokens of a valid subject: at least one, each non-empty and free of
/// dots, and joined with `.` they give the subject back.
pub proof fn lemma_tokens_of_valid(s: Seq<char>)
    requires
        subject_error(s) is None,
    ensures
        split_dots(s).len() >= 1,
        forall|k: int|
            0 <= k < split_dots(s).len() ==> (#[trigger] split_dots(s)[k]).len() > 0 && !split_dots(s)[k].contains('.'),
        join_dots(split_dots(s)) == s,
{
    lemma_split_dots_nonempty(s);
    lemma_subject_error_iff_invalid(s);
    lemma_split_no_dots(s);
    lemma_join_split(s);
}

/// The characters of `s`, in order.
pub fn chars_of(s: &str) -> (v: Vec<char>)
    ensures
        v@ == s@,
{
    let n = s.unicode_len();
    let mut v: Vec<char> = Vec::new();
    let mut i: usize = 0;
    while i < n
        invariant
            n == s@.len(),
            i <= n,
            v@ == s@.take(i as int),
        decreases n - i,
    {
        let c = s.get_char(i);
        v.push(c);
        i = i + 1;
        assert(v@ =~= s@.take(i as int));
    }
    assert(v@ =~= s@);
    v
}

/// The character ranges `[start, end)` of the dot-separated tokens of `chars`.
pub fn token_bounds(chars: &Vec<char>) -> (b: Vec<(usize, usize)>)
    ensures
        b@.len() == split_dots(chars@).len(),
        forall|k: int|
            0 <= k < b@.len() ==> {
                &&& (#[trigger] b@[k]).0 <= b@[k].1 <= chars@.len()
                &&& chars@.subrange(b@[k].0 as int, b@[k].1 as int) == split_dots(chars@)[k]
            },
{
    let n = chars.len();
    let mut bounds: Vec<(usize, usize)> = Vec::new();
    let mut start: usize = 0;
    let mut i: usize = 0;
    proof {
        assert(chars@.take(0) =~= Seq::<char>::empty());
    }
    while i < n
        invariant
            n == chars@.len(),
            start <= i <= n,
            bounds@.len() + 1 == split_dots(chars@.take(i as int)).len(),
            forall|k: int|
                0 <= k < bounds@.len() ==> {
                    &&& (#[trigger] bounds@[k]).0 <= bounds@[k].1 <= i
                    &&& chars@.subrange(bounds@[k].0 as int, bounds@[k].1 as int) == split_dots(
                        chars@.take(i as int),
                    )[k]
                },
            chars@.subrange(start as int, i as int) == split_dots(chars@.take(i as int)).last(),
        decreases n - i,
    {
        let ghost prev = split_dots(chars@.take(i as int));
        proof {
            assert(chars@.take(i + 1).drop_last() =~= chars@.take(i as int));
            lemma_split_dots_nonempty(chars@.take(i as int));
        }
        if chars[i] == '.' {
            bounds.push((start, i));
            start = i + 1;
            proof {
                assert(chars@.subrange(start as int, (i + 1) as int) =~= Seq::<char>::empty());
            }
        } else {
            proof {
                assert(chars@.subrange(start as int, (i + 1) as int) =~= chars@.subrange(
                    start as int,
                    i as int,
                ).push(chars@[i as int]));
            }
        }
        i = i + 1;
    }
    proof {
        assert(chars@.take(n as int) =~= chars@);
    }
    bounds.push((start, n));
    bounds
}


/// Whether `chars[a..b]` holds a `*` or a `>`.
fn range_has_wildcard_char(chars: &Vec<char>, a: usize, b: usize) -> (r: bool)
    requires
        a <= b <= chars@.len(),
    ensures
        r == has_wildcard_char(chars@.subrange(a as int, b as int)),
{
    let ghost t = chars@.subrange(a as int, b as int);
    let mut i = a;
    while i < b
        invariant
            a <= i <= b <= chars@.len(),
            t == chars@.subrange(a as int, b as int),
            forall|j: int| a <= j < i ==> chars@[j] != '*' && chars@[j] != '>',
        decreases b - i,
    {
        if chars[i] == '*' || chars[i] == '>' {
            assert(t[i - a] == chars@[i as int]);
            return true;
        }
        i = i + 1;
    }
    assert forall|c: char| t.contains(c) implies c != '*' && c != '>' by {
        let j = choose|j: int| 0 <= j < t.len() && t[j] == c;
        assert(chars@[a + j] == t[j]);
    }
    false
}

fn invalid_subject(reason: String) -> (e: PubSubError)
    ensures
        e == (PubSubError::InvalidSubject { reason }),
{
    PubSubError::InvalidSubject { reason }
}

/// Checks `raw` against the subject grammar; on failure the error names the
/// first rule that `raw` breaks, in the order of `subject_rejection`.
pub fn validate_subject(raw: &str) -> (r: Result<(), PubSubError>)
    ensures
        match r {
            Ok(()) => subject_error(raw@) is None,
            Err(e) => subject_error(raw@) matches Some(why) && e matches
                PubSubError::InvalidSubject { reason } && reason@ == why,
        },
{
    let chars = chars_of(raw);
    let n = chars.len();
    if n == 0 {
        return Err(invalid_subject(String::from_str("subject cannot be empty")));
    }
    let nbytes = raw.len();
    if nbytes > MAX_SUBJECT_LEN {
        let mut reason = String::from_str("subject exceeds maximum length of ");
        push_decimal(&mut reason, MAX_SUBJECT_LEN as u64);
        reason.append(" bytes (got ");
        push_decimal(&mut reason, nbytes as u64);
        reason.append(")");
        return Err(invalid_subject(reason));
    }
    if chars[0] == '.' || chars[n - 1] == '.' {
        return Err(invalid_subject(String::from_str("subject cannot start or end with '.'")));
    }
    let mut i: usize = 0;
    while i < n - 1
        invariant
            n == chars@.len(),
            chars@ == raw@,
            0 < n,
            nbytes == raw.len(),
            nbytes <= MAX_SUBJECT_LEN,
            chars@[0] != '.',
            chars@[n - 1] != '.',
            forall|j: int| 0 <= j < i && j + 1 < n ==> !(#[trigger] chars@[j] == '.' && chars@[j + 1] == '.'),
        decreases n - i,
    {
        if chars[i] == '.' && chars[i + 1] == '.' {
            return Err(
                invalid_subject(
                    String::from_str("subject cannot contain empty tokens (double dots)"),
                ),
            );
        }
        i = i + 1;
    }
    let bounds = token_bounds(&chars);
    let ghost toks = split_dots(chars@);
    let nt = bounds.len();
    let mut k: usize = 0;
    while k < nt
        invariant
            nt == bounds@.len() == toks.len(),
            toks == split_dots(chars@),
            chars@ == raw@,
            k <= nt,
            0 < n == chars@.len(),
            nbytes == raw.len(),
            nbytes <= MAX_SUBJECT_LEN,
            chars@[0] != '.',
            chars@[n - 1] != '.',
            !has_double_dot(chars@),
            token_rejection(toks, 0) == token_rejection(toks, k as int),
            forall|q: int|
                0 <= q < bounds@.len() ==> {
                    &&& (#[trigger] bounds@[q]).0 <= bounds@[q].1 <= chars@.len()
                    &&& chars@.subrange(bounds@[q].0 as int, bounds@[q].1 as int) == toks[q]
                },
        decreases nt - k,
    {
        let (a, b) = bounds[k];
        let ghost t = toks[k as int];
        assert(t == chars@.subrange(a as int, b as int));
        if a == b {
            return Err(invalid_subject(String::from_str("subject contains an empty token")));
        }
        let is_gt = b == a + 1 && chars[a] == '>';
        proof {
            if b == a + 1 {
                assert(t.len() == 1 && t[0] == chars@[a as int]);
                if chars@[a as int] == '>' {
                    assert(t =~= full_wildcard_token());
                }
            }
        }
        if is_gt && k != nt - 1 {
            return Err(invalid_subject(String::from_str("'>' wildcard must be the last token")));
        }
        if range_has_wildcard_char(&chars, a, b) && b - a > 1 {
            let mut reason = String::from_str("wildcard token '");
            reason.append(raw.substring_char(a, b));
            reason.append("' must stand alone");
            return Err(invalid_subject(reason));
        }
        k = k + 1;
    }
    Ok(())
}

} // verus!
