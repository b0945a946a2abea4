//! Human-readable identifiers: `NAMESPACE-...-KIND-ID`.

use crate::text::{chars_of, push_char};
use vstd::prelude::*;

verus! {

/// Width to which the numeric part of an identifier is zero-padded by default.
pub const DEFAULT_DIGITS: usize = 3;

/// The separator between the segments of an identifier.
pub const SEPARATOR: char = '-';

/// Mathematical model of an identifier.
pub struct HridModel {
    pub namespace: Seq<Seq<char>>,
    pub kind: Seq<char>,
    pub id: nat,
}

/// A human-readable identifier (HRID) for a requirement.
///
/// Format: `{NAMESPACE*}-{KIND}-{ID}`, where the namespace is an optional
/// sequence of non-empty segments, `KIND` is a non-empty category string and
/// `ID` is an unsigned integer rendered zero-padded.
///
/// Examples: `URS-001`, `SYS-099`, `COMPONENT-SUBCOMPONENT-SYS-005`.
#[derive(Debug, Clone, Eq)]
pub struct Hrid {
    pub namespace: Vec<String>,
    pub kind: String,
    pub id: usize,
}

/// Error returned when a segment or kind is the empty string.
#[derive(Debug, PartialEq, Eq)]
pub struct EmptyStringError;

/// Errors that can occur while parsing an identifier.
#[derive(Debug, Clone)]
pub enum Error {
    /// The text is not of the shape `[NAMESPACE-]*KIND-ID`.
    Syntax(String),
    /// The last token (second field) of the text (first field) is not an
    /// unsigned integer.
    Id(String, String),
}

/// Mathematical model of a parse error.
pub enum ErrorModel {
    Syntax(Seq<char>),
    Id(Seq<char>, Seq<char>),
}

impl View for Hrid {
    type V = HridModel;

    open spec fn view(&self) -> HridModel {
        HridModel {
            namespace: self.namespace@.map_values(|s: String| s@),
            kind: self.kind@,
            id: self.id as nat,
        }
    }
}

impl View for Error {
    type V = ErrorModel;

    open spec fn view(&self) -> ErrorModel {
        match self {
            Error::Syntax(s) => ErrorModel::Syntax(s@),
            Error::Id(s, t) => ErrorModel::Id(s@, t@),
        }
    }
}

// ---------------------------------------------------------------------------
// Specification of the text form
// ---------------------------------------------------------------------------

/// A segment may stand in an identifier: it is non-empty and holds no separator.
pub open spec fn valid_segment(s: Seq<char>) -> bool {
    s.len() > 0 && !s.contains(SEPARATOR)
}

/// Every segment and the kind are valid segments.
pub open spec fn valid_model(h: HridModel) -> bool {
    &&& valid_segment(h.kind)
    &&& forall|i: int| 0 <= i < h.namespace.len() ==> valid_segment(#[trigger] h.namespace[i])
}

/// The tokens of `s` between separators, read left to right. The empty text
/// has one empty token.
pub open spec fn split_tokens(s: Seq<char>) -> Seq<Seq<char>>
    decreases s.len(),
{
    if s.len() == 0 {
        seq![Seq::<char>::empty()]
    } else {
        let prev = split_tokens(s.drop_last());
        if s.last() == SEPARATOR {
            prev.push(Seq::<char>::empty())
        } else {
            prev.update(prev.len() - 1, prev.last().push(s.last()))
        }
    }
}

/// The tokens joined with the separator between each two.
pub open spec fn join_tokens(parts: Seq<Seq<char>>) -> Seq<char>
    decreases parts.len(),
{
    if parts.len() == 0 {
        Seq::<char>::empty()
    } else if parts.len() == 1 {
        parts[0]
    } else {
        join_tokens(parts.drop_last()).push(SEPARATOR) + parts.last()
    }
}

/// The text is well formed: splitting it on the separator gives at least two
/// tokens, none of them empty. (So it is non-empty, contains a separator, and
/// neither starts nor ends with one nor has two in a row.)
pub open spec fn well_formed_text(s: Seq<char>) -> bool {
    let parts = split_tokens(s);
    &&& parts.len() >= 2
    &&& forall|i: int| 0 <= i < parts.len() ==> (#[trigger] parts[i]).len() > 0
}

pub open spec fn is_digit(c: char) -> bool {
    '0' <= c && c <= '9'
}

pub open spec fn all_digits(t: Seq<char>) -> bool {
    forall|i: int| 0 <= i < t.len() ==> is_digit(#[trigger] t[i])
}

pub open spec fn digit_value(c: char) -> nat {
    (c as nat - '0' as nat) as nat
}

/// The number that a string of decimal digits denotes.
pub open spec fn decimal_value(t: Seq<char>) -> nat
    decreases t.len(),
{
    if t.len() == 0 {
        0
    } else {
        decimal_value(t.drop_last()) * 10 + digit_value(t.last())
    }
}

/// The digits of an id token: the token without one leading `+`.
pub open spec fn unsigned_digits(t: Seq<char>) -> Seq<char> {
    if t.len() > 0 && t[0] == '+' {
        t.drop_first()
    } else {
        t
    }
}

/// The token denotes an unsigned integer that fits in `usize`: an optional
/// `+` then one or more decimal digits.
pub open spec fn valid_id_token(t: Seq<char>) -> bool {
    let d = unsigned_digits(t);
    d.len() > 0 && all_digits(d) && decimal_value(d) <= usize::MAX
}

proof fn lemma_unsigned_push(t: Seq<char>, c: char)
    requires
        !(t.len() == 0 && c == '+'),
    ensures
        unsigned_digits(t.push(c)) == unsigned_digits(t).push(c),
{
    if t.len() > 0 && t[0] == '+' {
        assert(t.push(c)[0] == '+');
        assert(t.push(c).drop_first() =~= t.drop_first().push(c));
    } else if t.len() > 0 {
        assert(t.push(c)[0] == t[0]);
    } else {
        assert(t.push(c)[0] == c);
    }
}

pub open spec fn digit_char(d: nat) -> char {
    (d + '0' as nat) as char
}

/// The shortest decimal rendering of `n`.
pub open spec fn decimal_digits(n: nat) -> Seq<char>
    decreases n,
{
    if n < 10 {
        seq![digit_char(n)]
    } else {
        decimal_digits(n / 10).push(digit_char(n % 10))
    }
}

/// The decimal rendering of `n`, left-padded with zeros to `width`.
pub open spec fn padded_digits(n: nat, width: nat) -> Seq<char> {
    let d = decimal_digits(n);
    if d.len() >= width {
        d
    } else {
        Seq::new((width - d.len()) as nat, |i: int| '0') + d
    }
}

/// The canonical text of an identifier, with the id padded to `width`.
pub open spec fn format_spec(h: HridModel, width: nat) -> Seq<char> {
    join_tokens(h.namespace.push(h.kind).push(padded_digits(h.id, width)))
}

/// What parsing `s` yields.
pub open spec fn parse_spec(s: Seq<char>) -> Result<HridModel, ErrorModel> {
    let parts = split_tokens(s);
    if !well_formed_text(s) {
        Err(ErrorModel::Syntax(s))
    } else if !valid_id_token(parts.last()) {
        Err(ErrorModel::Id(s, parts.last()))
    } else {
        Ok(
            HridModel {
                namespace: parts.take(parts.len() - 2),
                kind: parts[parts.len() - 2],
                id: decimal_value(unsigned_digits(parts.last())),
            },
        )
    }
}

// ---------------------------------------------------------------------------
// Lemmas
// ---------------------------------------------------------------------------

/// Appending separator-free text extends the last token.
proof fn lemma_split_append_plain(x: Seq<char>, y: Seq<char>)
    requires
        !y.contains(SEPARATOR),
    ensures
        split_tokens(x + y) == split_tokens(x).update(
            split_tokens(x).len() - 1,
            split_tokens(x).last() + y,
        ),
        split_tokens(x).len() >= 1,
    decreases y.len(),
{
    lemma_split_nonempty(x);
    if y.len() == 0 {
        assert(x + y =~= x);
        assert(split_tokens(x).last() + y =~= split_tokens(x).last());
        assert(split_tokens(x).update(split_tokens(x).len() - 1, split_tokens(x).last())
            =~= split_tokens(x));
    } else {
        let y0 = y.drop_last();
        assert(!y0.contains(SEPARATOR)) by {
            if y0.contains(SEPARATOR) {
                let i = choose|i: int| 0 <= i < y0.len() && y0[i] == SEPARATOR;
                assert(y[i] == SEPARATOR);
            }
        }
        assert(y.last() != SEPARATOR) by {
            assert(y[y.len() - 1] == y.last());
        }
        lemma_split_append_plain(x, y0);
        assert((x + y).drop_last() =~= x + y0);
        assert((x + y).last() == y.last());
        let p = split_tokens(x);
        let prev = split_tokens(x + y0);
        assert(prev =~= p.update(p.len() - 1, p.last() + y0));
        assert(prev.last() == p.last() + y0);
        assert((p.last() + y0).push(y.last()) =~= p.last() + y);
        assert(split_tokens(x + y) == prev.update(prev.len() - 1, prev.last().push(y.last())));
        assert(split_tokens(x + y) =~= p.update(p.len() - 1, p.last() + y));
    }
}

proof fn lemma_split_nonempty(x: Seq<char>)
    ensures
        split_tokens(x).len() >= 1,
    decreases x.len(),
{
    if x.len() > 0 {
        lemma_split_nonempty(x.drop_last());
    }
}

/// Splitting a join of separator-free tokens gives the tokens back.
proof fn lemma_split_join(parts: Seq<Seq<char>>)
    requires
        parts.len() >= 1,
        forall|i: int| 0 <= i < parts.len() ==> !(#[trigger] parts[i]).contains(SEPARATOR),
    ensures
        split_tokens(join_tokens(parts)) == parts,
    decreases parts.len(),
{
    if parts.len() == 1 {
        lemma_split_append_plain(Seq::<char>::empty(), parts[0]);
        assert(Seq::<char>::empty() + parts[0] =~= parts[0]);
        assert(split_tokens(Seq::<char>::empty()) == seq![Seq::<char>::empty()]);
        assert(Seq::<char>::empty() + parts[0] =~= parts[0]);
        assert(split_tokens(parts[0]) =~= parts);
    } else {
        let init = parts.drop_last();
        assert forall|i: int| 0 <= i < init.len() implies !(#[trigger] init[i]).contains(
            SEPARATOR,
        ) by {
            assert(init[i] == parts[i]);
        }
        lemma_split_join(init);
        let x = join_tokens(init).push(SEPARATOR);
        assert(x.drop_last() =~= join_tokens(init));
        assert(split_tokens(x) == init.push(Seq::<char>::empty()));
        assert(!parts.last().contains(SEPARATOR)) by {
            assert(parts[parts.len() - 1] == parts.last());
        }
        lemma_split_append_plain(x, parts.last());
        assert(Seq::<char>::empty() + parts.last() =~= parts.last());
        assert(init.push(Seq::<char>::empty()).update(init.len() as int, parts.last()) =~= parts);
    }
}

proof fn lemma_digit_char(d: nat)
    requires
        d < 10,
    ensures
        digit_value(digit_char(d)) == d,
        is_digit(digit_char(d)),
        digit_char(d) != SEPARATOR,
{
    assert((d + '0' as nat) as char as nat == d + '0' as nat);
}

proof fn lemma_decimal_digits_value(n: nat)
    ensures
        decimal_value(decimal_digits(n)) == n,
        all_digits(decimal_digits(n)),
        decimal_digits(n).len() >= 1,
    decreases n,
{
    if n < 10 {
        lemma_digit_char(n);
        let d = decimal_digits(n);
        assert(d.drop_last() =~= Seq::<char>::empty());
        assert(decimal_value(Seq::<char>::empty()) == 0);
        assert(d.last() == digit_char(n));
        assert(decimal_value(d) == decimal_value(d.drop_last()) * 10 + digit_value(d.last()));
    } else {
        lemma_digit_char(n % 10);
        lemma_decimal_digits_value(n / 10);
        let d = decimal_digits(n);
        assert(d.drop_last() =~= decimal_digits(n / 10));
        assert(d.last() == digit_char(n % 10));
        assert(decimal_value(d) == decimal_value(decimal_digits(n / 10)) * 10 + digit_value(
            digit_char(n % 10),
        ));
        assert(n == (n / 10) * 10 + n % 10);
        assert forall|i: int| 0 <= i < d.len() implies is_digit(#[trigger] d[i]) by {
            if i < d.len() - 1 {
                assert(d[i] == decimal_digits(n / 10)[i]);
            }
        }
    }
}

/// Leading zeros do not change the value of a string of digits.
proof fn lemma_leading_zeros(z: Seq<char>, t: Seq<char>)
    requires
        forall|i: int| 0 <= i < z.len() ==> #[trigger] z[i] == '0',
    ensures
        decimal_value(z + t) == decimal_value(t),
    decreases t.len(),
{
    if t.len() == 0 {
        assert(z + t =~= z);
        lemma_zeros_value(z);
    } else {
        lemma_leading_zeros(z, t.drop_last());
        assert((z + t).drop_last() =~= z + t.drop_last());
    }
}

proof fn lemma_zeros_value(z: Seq<char>)
    requires
        forall|i: int| 0 <= i < z.len() ==> #[trigger] z[i] == '0',
    ensures
        decimal_value(z) == 0,
    decreases z.len(),
{
    if z.len() > 0 {
        assert(z[z.len() - 1] == '0');
        lemma_zeros_value(z.drop_last());
    }
}

proof fn lemma_padded_digits(n: nat, width: nat)
    ensures
        decimal_value(padded_digits(n, width)) == n,
        all_digits(padded_digits(n, width)),
        padded_digits(n, width).len() >= 1,
        !padded_digits(n, width).contains(SEPARATOR),
{
    lemma_decimal_digits_value(n);
    let d = decimal_digits(n);
    let p = padded_digits(n, width);
    if d.len() < width {
        let z = Seq::new((width - d.len()) as nat, |i: int| '0');
        lemma_leading_zeros(z, d);
        assert forall|i: int| 0 <= i < p.len() implies is_digit(#[trigger] p[i]) by {
            if i >= z.len() {
                assert(p[i] == d[i - z.len()]);
            }
        }
    }
    assert(!p.contains(SEPARATOR)) by {
        if p.contains(SEPARATOR) {
            let i = choose|i: int| 0 <= i < p.len() && p[i] == SEPARATOR;
            assert(is_digit(p[i]));
        }
    }
}

/// No token holds a separator.
proof fn lemma_split_plain(s: Seq<char>)
    ensures
        forall|i: int| 0 <= i < split_tokens(s).len() ==> !(#[trigger] split_tokens(s)[i]).contains(SEPARATOR),
    decreases s.len(),
{
    if s.len() > 0 {
        let prev = split_tokens(s.drop_last());
        lemma_split_plain(s.drop_last());
        lemma_split_nonempty(s.drop_last());
        if s.last() != SEPARATOR {
            let t = prev.last().push(s.last());
            assert(!t.contains(SEPARATOR)) by {
                if t.contains(SEPARATOR) {
                    let k = choose|k: int| 0 <= k < t.len() && t[k] == SEPARATOR;
                    if k < t.len() - 1 {
                        assert(prev[prev.len() - 1][k] == SEPARATOR);
                    }
                }
            }
            assert forall|i: int| 0 <= i < split_tokens(s).len() implies !(#[trigger] split_tokens(s)[i]).contains(SEPARATOR) by {
                if i < prev.len() - 1 {
                    assert(split_tokens(s)[i] == prev[i]);
                }
            }
        } else {
            assert forall|i: int| 0 <= i < split_tokens(s).len() implies !(#[trigger] split_tokens(s)[i]).contains(SEPARATOR) by {
                if i < prev.len() {
                    assert(split_tokens(s)[i] == prev[i]);
                } else {
                    assert(split_tokens(s)[i] =~= Seq::<char>::empty());
                }
            }
        }
    }
}

/// Splitting a concatenation: the last token of `x` and the first of `y`
/// run together.
proof fn lemma_split_concat(x: Seq<char>, y: Seq<char>)
    ensures
        split_tokens(x + y) == split_tokens(x).drop_last() + seq![
            split_tokens(x).last() + split_tokens(y)[0],
        ] + split_tokens(y).drop_first(),
    decreases y.len(),
{
    lemma_split_nonempty(x);
    lemma_split_nonempty(y);
    let a = split_tokens(x);
    if y.len() == 0 {
        assert(x + y =~= x);
        assert(split_tokens(y) == seq![Seq::<char>::empty()]);
        assert(a.last() + Seq::<char>::empty() =~= a.last());
        assert(a.drop_last() + seq![a.last()] + Seq::<Seq<char>>::empty() =~= a);
        assert(seq![Seq::<char>::empty()].drop_first() =~= Seq::<Seq<char>>::empty());
    } else {
        let y0 = y.drop_last();
        let c = y.last();
        lemma_split_concat(x, y0);
        lemma_split_nonempty(y0);
        assert((x + y).drop_last() =~= x + y0);
        assert((x + y).last() == c);
        let b0 = split_tokens(y0);
        let s0 = split_tokens(x + y0);
        let b = split_tokens(y);
        if c == SEPARATOR {
            assert(b == b0.push(Seq::<char>::empty()));
            assert(b[0] == b0[0]);
            assert(b.drop_first() =~= b0.drop_first().push(Seq::<char>::empty()));
            assert(split_tokens(x + y) == s0.push(Seq::<char>::empty()));
            assert(split_tokens(x + y) =~= a.drop_last() + seq![a.last() + b[0]] + b.drop_first());
        } else {
            assert(b == b0.update(b0.len() - 1, b0.last().push(c)));
            assert(split_tokens(x + y) == s0.update(s0.len() - 1, s0.last().push(c)));
            if b0.len() == 1 {
                assert(b[0] == b0[0].push(c));
                assert(b.drop_first() =~= Seq::<Seq<char>>::empty());
                assert(b0.drop_first() =~= Seq::<Seq<char>>::empty());
                assert(s0.last() == a.last() + b0[0]);
                assert((a.last() + b0[0]).push(c) =~= a.last() + b[0]);
                assert(split_tokens(x + y) =~= a.drop_last() + seq![a.last() + b[0]] + b.drop_first());
            } else {
                assert(b[0] == b0[0]);
                assert(b.drop_first() =~= b0.drop_first().update(
                    b0.len() - 2,
                    b0.last().push(c),
                ));
                assert(s0.last() == b0.last());
                assert(split_tokens(x + y) =~= a.drop_last() + seq![a.last() + b[0]] + b.drop_first());
            }
        }
    }
}

/// For text that does not start with a separator nor hold two in a row,
/// every token but the last is non-empty, the last is empty exactly when the
/// text ends with a separator, and there are two tokens or more exactly when
/// the text holds a separator.
proof fn lemma_tokens_shape(s: Seq<char>)
    requires
        s.len() > 0,
        s[0] != SEPARATOR,
        !(exists|i: int| 0 <= i < s.len() - 1 && #[trigger] s[i] == SEPARATOR && s[i + 1] == SEPARATOR),
    ensures
        forall|i: int| 0 <= i < split_tokens(s).len() - 1 ==> (#[trigger] split_tokens(s)[i]).len() > 0,
        (split_tokens(s).last().len() == 0) == (s.last() == SEPARATOR),
        (split_tokens(s).len() >= 2) == s.contains(SEPARATOR),
    decreases s.len(),
{
    let t = split_tokens(s);
    let s0 = s.drop_last();
    let c = s.last();
    lemma_split_nonempty(s0);
    let t0 = split_tokens(s0);
    if s0.len() == 0 {
        assert(t0 == seq![Seq::<char>::empty()]);
        assert(c == s[0]);
        assert(t =~= seq![seq![c]]);
        assert(!s.contains(SEPARATOR)) by {
            if s.contains(SEPARATOR) {
                let k = choose|k: int| 0 <= k < s.len() && s[k] == SEPARATOR;
                assert(k == 0);
            }
        }
    } else {
        assert(s0[0] == s[0]);
        assert(!(exists|i: int| 0 <= i < s0.len() - 1 && #[trigger] s0[i] == SEPARATOR && s0[i + 1] == SEPARATOR)) by {
            if exists|i: int| 0 <= i < s0.len() - 1 && #[trigger] s0[i] == SEPARATOR && s0[i + 1] == SEPARATOR {
                let i = choose|i: int| 0 <= i < s0.len() - 1 && #[trigger] s0[i] == SEPARATOR && s0[i + 1] == SEPARATOR;
                assert(s[i] == SEPARATOR && s[i + 1] == SEPARATOR);
            }
        }
        lemma_tokens_shape(s0);
        assert(s0.last() == s[s.len() - 2]);
        assert(s.contains(SEPARATOR) == (s0.contains(SEPARATOR) || c == SEPARATOR)) by {
            if s.contains(SEPARATOR) {
                let k = choose|k: int| 0 <= k < s.len() && s[k] == SEPARATOR;
                if k < s.len() - 1 {
                    assert(s0[k] == SEPARATOR);
                }
            }
            if s0.contains(SEPARATOR) {
                let k = choose|k: int| 0 <= k < s0.len() && s0[k] == SEPARATOR;
                assert(s[k] == SEPARATOR);
            }
        }
        if c == SEPARATOR {
            assert(s0.last() != SEPARATOR) by {
                if s0.last() == SEPARATOR {
                    assert(s[s.len() - 2] == SEPARATOR && s[s.len() - 1] == SEPARATOR);
                }
            }
            assert(t == t0.push(Seq::<char>::empty()));
            assert forall|i: int| 0 <= i < t.len() - 1 implies (#[trigger] t[i]).len() > 0 by {
                assert(t[i] == t0[i]);
                if i == t0.len() - 1 {
                    assert(t0.last() == t0[i]);
                }
            }
        } else {
            assert(t == t0.update(t0.len() - 1, t0.last().push(c)));
            assert forall|i: int| 0 <= i < t.len() - 1 implies (#[trigger] t[i]).len() > 0 by {
                assert(t[i] == t0[i]);
            }
        }
    }
}

/// Text that is empty, has no separator, starts or ends with one, or has two
/// in a row is a syntax error naming the text, and any other text is well
/// formed; well-formed text whose last token is not a number that fits is an
/// id error naming the text and that token.
pub proof fn lemma_parse_rejects(s: Seq<char>)
    ensures
        s.len() == 0 || !s.contains(SEPARATOR) || s[0] == SEPARATOR || s.last() == SEPARATOR
            || (exists|i: int| 0 <= i < s.len() - 1 && #[trigger] s[i] == SEPARATOR && s[i + 1] == SEPARATOR)
            ==> parse_spec(s) == Err::<HridModel, ErrorModel>(ErrorModel::Syntax(s)),
        well_formed_text(s) && !valid_id_token(split_tokens(s).last()) ==> parse_spec(s) == Err::<
            HridModel,
            ErrorModel,
        >(ErrorModel::Id(s, split_tokens(s).last())),
        !(s.len() == 0 || !s.contains(SEPARATOR) || s[0] == SEPARATOR || s.last() == SEPARATOR
            || (exists|i: int| 0 <= i < s.len() - 1 && #[trigger] s[i] == SEPARATOR && s[i + 1] == SEPARATOR))
            ==> well_formed_text(s),
{
    if !(s.len() == 0 || !s.contains(SEPARATOR) || s[0] == SEPARATOR || s.last() == SEPARATOR
        || (exists|i: int| 0 <= i < s.len() - 1 && #[trigger] s[i] == SEPARATOR && s[i + 1] == SEPARATOR)) {
        lemma_tokens_shape(s);
        let t = split_tokens(s);
        assert forall|i: int| 0 <= i < t.len() implies (#[trigger] t[i]).len() > 0 by {
            if i == t.len() - 1 {
                assert(t.last() == t[i]);
            }
        }
    }
    let t = split_tokens(s);
    lemma_split_nonempty(s);
    if s.len() == 0 {
    } else if !s.contains(SEPARATOR) {
        lemma_split_append_plain(Seq::<char>::empty(), s);
        assert(Seq::<char>::empty() + s =~= s);
        assert(t.len() == 1);
    } else if s[0] == SEPARATOR {
        let rest = s.drop_first();
        assert(s =~= seq![SEPARATOR] + rest);
        lemma_split_concat(seq![SEPARATOR], rest);
        let one = seq![SEPARATOR];
        assert(one.drop_last() =~= Seq::<char>::empty());
        assert(split_tokens(one) == split_tokens(Seq::<char>::empty()).push(Seq::<char>::empty()));
        assert(split_tokens(one).drop_last() =~= seq![Seq::<char>::empty()]);
        assert(t[0] =~= Seq::<char>::empty());
        assert(!well_formed_text(s));
    } else if s.last() == SEPARATOR {
        assert(t == split_tokens(s.drop_last()).push(Seq::<char>::empty()));
        assert(t[t.len() - 1].len() == 0);
        assert(!well_formed_text(s));
    } else if exists|i: int| 0 <= i < s.len() - 1 && #[trigger] s[i] == SEPARATOR && s[i + 1] == SEPARATOR {
        let i = choose|i: int| 0 <= i < s.len() - 1 && #[trigger] s[i] == SEPARATOR && s[i + 1] == SEPARATOR;
        let x = s.take(i);
        let y = s.skip(i + 2);
        let xx = x.push(SEPARATOR).push(SEPARATOR);
        assert(s =~= xx + y);
        lemma_split_nonempty(x);
        assert(xx.drop_last() =~= x.push(SEPARATOR));
        assert(x.push(SEPARATOR).drop_last() =~= x);
        let a = split_tokens(xx);
        assert(split_tokens(x.push(SEPARATOR)) == split_tokens(x).push(Seq::<char>::empty()));
        assert(a == split_tokens(x).push(Seq::<char>::empty()).push(Seq::<char>::empty()));
        lemma_split_concat(xx, y);
        let k = split_tokens(x).len() as int;
        assert(a.drop_last()[k] =~= Seq::<char>::empty());
        assert(t[k] == a.drop_last()[k]);
        assert(!well_formed_text(s));
    }
}

/// What parsing accepts is a valid identifier.
pub proof fn lemma_parse_valid(s: Seq<char>)
    requires
        parse_spec(s) is Ok,
    ensures
        valid_model(parse_spec(s)->Ok_0),
{
    let parts = split_tokens(s);
    lemma_split_plain(s);
    let h = parse_spec(s)->Ok_0;
    assert(valid_segment(h.kind)) by {
        assert(parts[parts.len() - 2].len() > 0);
    }
    assert forall|i: int| 0 <= i < h.namespace.len() implies valid_segment(#[trigger] h.namespace[i]) by {
        assert(h.namespace[i] == parts[i]);
        assert(parts[i].len() > 0);
    }
}

/// For every valid identifier and every padding width, parsing the canonical
/// text gives the identifier back.
pub proof fn lemma_parse_format(h: HridModel, width: nat)
    requires
        valid_model(h),
        h.id <= usize::MAX,
    ensures
        parse_spec(format_spec(h, width)) == Ok::<HridModel, ErrorModel>(h),
{
    let digits = padded_digits(h.id, width);
    let parts = h.namespace.push(h.kind).push(digits);
    lemma_padded_digits(h.id, width);
    assert forall|i: int| 0 <= i < parts.len() implies !(#[trigger] parts[i]).contains(SEPARATOR)
        && parts[i].len() > 0 by {
        if i < h.namespace.len() {
            assert(parts[i] == h.namespace[i]);
            assert(valid_segment(h.namespace[i]));
        } else if i == h.namespace.len() {
            assert(parts[i] == h.kind);
        } else {
            assert(parts[i] == digits);
        }
    }
    lemma_split_join(parts);
    let s = format_spec(h, width);
    assert(split_tokens(s) == parts);
    assert(parts.last() == digits);
    assert(parts.take(parts.len() - 2) =~= h.namespace);
    assert(parts[parts.len() - 2] == h.kind);
}

// ---------------------------------------------------------------------------
// Rendering
// ---------------------------------------------------------------------------

fn digit_to_char(d: usize) -> (c: char)
    requires
        d < 10,
    ensures
        c == digit_char(d as nat),
{
    let b: u8 = (d as u8) + 48u8;
    b as char
}

/// Appends the shortest decimal rendering of `n`.
fn push_decimal(n: usize, out: &mut String)
    ensures
        final(out)@ == old(out)@ + decimal_digits(n as nat),
    decreases n,
{
    if n < 10 {
        push_char(out, digit_to_char(n));
    } else {
        push_decimal(n / 10, out);
        push_char(out, digit_to_char(n % 10));
    }
}

fn decimal_len(n: usize) -> (r: usize)
    ensures
        r as nat == decimal_digits(n as nat).len(),
    decreases n,
{
    if n < 10 {
        1
    } else {
        let r = decimal_len(n / 10);
        proof {
            lemma_decimal_digits_len_bound((n / 10) as nat);
        }
        r + 1
    }
}

proof fn lemma_decimal_digits_len_bound(n: nat)
    ensures
        decimal_digits(n).len() <= n + 1,
    decreases n,
{
    if n >= 10 {
        lemma_decimal_digits_len_bound(n / 10);
    }
}

/// Appends the decimal rendering of `n`, zero-padded to `width`.
fn push_padded(n: usize, width: usize, out: &mut String)
    ensures
        final(out)@ == old(out)@ + padded_digits(n as nat, width as nat),
{
    let len = decimal_len(n);
    let ghost start = out@;
    if len < width {
        let mut i: usize = 0;
        while i < width - len
            invariant
                len < width,
                i <= width - len,
                out@ == start + Seq::new(i as nat, |k: int| '0'),
            decreases width - len - i,
        {
            push_char(out, '0');
            i = i + 1;
            assert(out@ =~= start + Seq::new(i as nat, |k: int| '0'));
        }
    }
    let ghost mid = out@;
    push_decimal(n, out);
    assert(out@ =~= start + padded_digits(n as nat, width as nat));
}

/// Appends a copy of `s`.
fn push_str(out: &mut String, s: &String)
    ensures
        final(out)@ == old(out)@ + s@,
{
    out.append(s.as_str());
}

impl Hrid {
    /// Every segment and the kind are non-empty and hold no separator.
    pub open spec fn wf(&self) -> bool {
        valid_model(self@)
    }

    /// Creates an identifier with no namespace; an empty kind is rejected.
    pub fn new(kind: String, id: usize) -> (r: Result<Hrid, EmptyStringError>)
        ensures
            r is Ok <==> kind@.len() > 0,
            r matches Ok(h) ==> h@ == (HridModel { namespace: Seq::empty(), kind: kind@, id: id as nat }),
    {
        let empty: Vec<String> = Vec::new();
        assert(empty@.map_values(|s: String| s@) =~= Seq::<Seq<char>>::empty());
        Hrid::new_with_namespace(empty, kind, id)
    }

    /// Creates an identifier with the given namespace; an empty kind or an
    /// empty namespace segment is rejected.
    pub fn new_with_namespace(namespace: Vec<String>, kind: String, id: usize) -> (r: Result<
        Hrid,
        EmptyStringError,
    >)
        ensures
            r is Ok <==> kind@.len() > 0 && forall|i: int|
                0 <= i < namespace@.len() ==> (#[trigger] namespace@[i])@.len() > 0,
            r matches Ok(h) ==> h@ == (HridModel {
                namespace: namespace@.map_values(|s: String| s@),
                kind: kind@,
                id: id as nat,
            }),
    {
        if kind.as_str().is_empty() {
            return Err(EmptyStringError);
        }
        let mut i: usize = 0;
        while i < namespace.len()
            invariant
                i <= namespace@.len(),
                forall|j: int| 0 <= j < i ==> (#[trigger] namespace@[j])@.len() > 0,
            decreases namespace@.len() - i,
        {
            if namespace[i].as_str().is_empty() {
                return Err(EmptyStringError);
            }
            i = i + 1;
        }
        Ok(Hrid { namespace, kind, id })
    }

    /// The namespace segments, in order.
    pub fn namespace(&self) -> (r: Vec<&str>)
        ensures
            r@.len() == self.namespace@.len(),
            forall|i: int| 0 <= i < r@.len() ==> (#[trigger] r@[i])@ == self.namespace@[i]@,
    {
        let mut r: Vec<&str> = Vec::new();
        let mut i: usize = 0;
        while i < self.namespace.len()
            invariant
                i <= self.namespace@.len(),
                r@.len() == i,
                forall|j: int| 0 <= j < i ==> (#[trigger] r@[j])@ == self.namespace@[j]@,
            decreases self.namespace@.len() - i,
        {
            r.push(self.namespace[i].as_str());
            i = i + 1;
        }
        r
    }

    /// The kind.
    pub fn kind(&self) -> (r: &str)
        ensures
            r@ == self.kind@,
    {
        self.kind.as_str()
    }

    /// The numeric id.
    pub fn id(&self) -> (r: usize)
        ensures
            r == self.id,
    {
        self.id
    }

    /// A copy with the same model.
    pub fn copied(&self) -> (r: Hrid)
        ensures
            r@ == self@,
    {
        let mut namespace: Vec<String> = Vec::new();
        let mut i: usize = 0;
        while i < self.namespace.len()
            invariant
                i <= self.namespace@.len(),
                namespace@.len() == i,
                forall|j: int| 0 <= j < i ==> (#[trigger] namespace@[j])@ == self.namespace@[j]@,
            decreases self.namespace@.len() - i,
        {
            namespace.push(self.namespace[i].clone());
            i = i + 1;
        }
        assert(namespace@.map_values(|s: String| s@) =~= self.namespace@.map_values(
            |s: String| s@,
        ));
        Hrid { namespace, kind: self.kind.clone(), id: self.id }
    }

    /// Whether two identifiers are equal segment by segment.
    pub fn same_as(&self, other: &Hrid) -> (r: bool)
        ensures
            r == (self@ == other@),
    {
        if self.id != other.id || self.kind != other.kind || self.namespace.len()
            != other.namespace.len() {
            proof {
                if self@ == other@ {
                    assert(self@.namespace.len() == other@.namespace.len());
                }
            }
            return false;
        }
        let mut i: usize = 0;
        while i < self.namespace.len()
            invariant
                i <= self.namespace@.len(),
                self.namespace@.len() == other.namespace@.len(),
                forall|j: int| 0 <= j < i ==> (#[trigger] self.namespace@[j])@ == other.namespace@[j]@,
            decreases self.namespace@.len() - i,
        {
            if self.namespace[i] != other.namespace[i] {
                proof {
                    assert(self@.namespace[i as int] != other@.namespace[i as int]);
                }
                return false;
            }
            i = i + 1;
        }
        assert(self@.namespace =~= other@.namespace);
        true
    }

    /// The canonical text, with the id zero-padded to `digits`.
    pub fn format(&self, digits: usize) -> (r: String)
        ensures
            r@ == format_spec(self@, digits as nat),
    {
        let ghost parts = self@.namespace.push(self@.kind).push(
            padded_digits(self.id as nat, digits as nat),
        );
        let mut out = String::new();
        let mut i: usize = 0;
        while i < self.namespace.len()
            invariant
                i <= self.namespace@.len(),
                parts == self@.namespace.push(self@.kind).push(
                    padded_digits(self.id as nat, digits as nat),
                ),
                out@ == join_tokens(parts.take(i as int)),
            decreases self.namespace@.len() - i,
        {
            proof {
                assert(parts.take(i + 1).drop_last() =~= parts.take(i as int));
                assert(parts.take(i + 1).last() == self.namespace@[i as int]@);
            }
            if i > 0 {
                push_char(&mut out, SEPARATOR);
            } else {
                proof {
                    assert(parts.take(0) =~= Seq::<Seq<char>>::empty());
                }
            }
            push_str(&mut out, &self.namespace[i]);
            i = i + 1;
            assert(out@ =~= join_tokens(parts.take(i as int)));
        }
        let n = self.namespace.len();
        proof {
            assert(parts.take(n + 1).drop_last() =~= parts.take(n as int));
            assert(parts.take(n + 1).last() == self@.kind);
            assert(parts.take(0) =~= Seq::<Seq<char>>::empty());
        }
        if n > 0 {
            push_char(&mut out, SEPARATOR);
        }
        push_str(&mut out, &self.kind);
        assert(out@ =~= join_tokens(parts.take(n + 1)));
        proof {
            assert(parts.take(n + 2).drop_last() =~= parts.take(n + 1));
            assert(parts.take(n + 2) =~= parts);
        }
        push_char(&mut out, SEPARATOR);
        push_padded(self.id, digits, &mut out);
        assert(out@ =~= join_tokens(parts));
        out
    }

    /// The canonical text, with the id zero-padded to the default width.
    pub fn to_string(&self) -> (r: String)
        ensures
            r@ == format_spec(self@, DEFAULT_DIGITS as nat),
    {
        self.format(DEFAULT_DIGITS)
    }
}

impl PartialEq for Hrid {
    fn eq(&self, other: &Hrid) -> (r: bool) {
        self.same_as(other)
    }
}

impl vstd::std_specs::cmp::PartialEqSpecImpl for Hrid {
    open spec fn obeys_eq_spec() -> bool {
        true
    }

    open spec fn eq_spec(&self, other: &Hrid) -> bool {
        self@ == other@
    }
}

// ---------------------------------------------------------------------------
// Parsing
// ---------------------------------------------------------------------------

/// The model of a list of strings.
pub open spec fn strings_view(v: Seq<String>) -> Seq<Seq<char>> {
    v.map_values(|p: String| p@)
}

impl Hrid {
    /// Parses `[NAMESPACE-]*KIND-ID`.
    ///
    /// Text that is empty, has no separator, starts or ends with one, or has
    /// two in a row is a `Syntax` error; a last token that is not an unsigned
    /// integer is an `Id` error naming the text and that token. The id need
    /// not be zero-padded.
    pub fn parse(s: &str) -> (r: Result<Hrid, Error>)
        ensures
            r is Ok <==> parse_spec(s@) is Ok,
            r matches Ok(h) ==> parse_spec(s@) == Ok::<HridModel, ErrorModel>(h@),
            r matches Err(e) ==> parse_spec(s@) == Err::<HridModel, ErrorModel>(e@),
            r matches Ok(h) ==> h.wf(),
    {
        let cs = chars_of(s);
        let mut parts: Vec<String> = Vec::new();
        let mut cur = String::new();
        let mut digits_only = true;
        let mut overflow = false;
        let mut has_digit = false;
        let mut val: usize = 0;
        let mut i: usize = 0;
        assert(s@.take(0) =~= Seq::<char>::empty());
        while i < cs.len()
            invariant
                cs@ == s@,
                i <= cs@.len(),
                split_tokens(s@.take(i as int)) == strings_view(parts@).push(cur@),
                has_digit == (unsigned_digits(cur@).len() > 0),
                digits_only == all_digits(unsigned_digits(cur@)),
                digits_only ==> (overflow <==> decimal_value(unsigned_digits(cur@)) > usize::MAX),
                digits_only && !overflow ==> val == decimal_value(unsigned_digits(cur@)),
            decreases cs@.len() - i,
        {
            let c = cs[i];
            let ghost old_parts = parts@;
            let ghost prefix = s@.take(i as int);
            assert(s@.take(i + 1).drop_last() =~= prefix);
            assert(s@.take(i + 1).last() == c);
            if c == SEPARATOR {
                parts.push(cur);
                cur = String::new();
                digits_only = true;
                overflow = false;
                has_digit = false;
                val = 0;
                assert(strings_view(parts@).push(cur@) =~= split_tokens(prefix).push(
                    Seq::<char>::empty(),
                ));
            } else if c == '+' && cur.as_str().is_empty() {
                let ghost old_cur = cur@;
                push_char(&mut cur, c);
                assert(strings_view(parts@).push(cur@) =~= split_tokens(prefix).update(
                    strings_view(old_parts).len() as int,
                    old_cur.push(c),
                ));
                assert(cur@ =~= seq!['+']);
                assert(unsigned_digits(cur@) =~= Seq::<char>::empty());
                assert(old_cur =~= Seq::<char>::empty());
            } else {
                let ghost old_full = cur@;
                let ghost old_cur = unsigned_digits(cur@);
                push_char(&mut cur, c);
                assert(strings_view(parts@).push(cur@) =~= split_tokens(prefix).update(
                    strings_view(old_parts).len() as int,
                    old_full.push(c),
                ));
                proof {
                    lemma_unsigned_push(old_full, c);
                }
                let ghost dg = unsigned_digits(cur@);
                assert(dg.drop_last() =~= old_cur);
                assert(decimal_value(dg) == decimal_value(old_cur) * 10 + digit_value(c));
                has_digit = true;
                if '0' <= c && c <= '9' {
                    if !overflow {
                        let d = (c as u32 - 48) as usize;
                        match val.checked_mul(10) {
                            Some(v10) => match v10.checked_add(d) {
                                Some(v) => {
                                    val = v;
                                },
                                None => {
                                    overflow = true;
                                },
                            },
                            None => {
                                overflow = true;
                            },
                        }
                    }
                    proof {
                        if digits_only {
                            assert forall|k: int| 0 <= k < dg.len() implies is_digit(
                                #[trigger] dg[k],
                            ) by {
                                if k < old_cur.len() {
                                    assert(dg[k] == old_cur[k]);
                                }
                            }
                        } else {
                            let k = choose|k: int| 0 <= k < old_cur.len() && !is_digit(old_cur[k]);
                            assert(dg[k] == old_cur[k]);
                        }
                    }
                } else {
                    digits_only = false;
                    assert(!is_digit(dg[dg.len() - 1]));
                }
            }
            i = i + 1;
        }
        assert(s@.take(cs@.len() as int) =~= s@);
        let ghost toks = split_tokens(s@);
        if parts.len() == 0 || cur.as_str().is_empty() {
            proof {
                assert(toks.len() == parts@.len() + 1);
                assert(toks[toks.len() - 1] == cur@);
                if parts@.len() > 0 {
                    assert(toks[toks.len() - 1].len() == 0);
                }
                assert(!well_formed_text(s@));
            }
            let e = Error::Syntax(s.to_owned());
            assert(e@ == ErrorModel::Syntax(s@));
            return Err(e);
        }
        let mut j: usize = 0;
        while j < parts.len()
            invariant
                j <= parts@.len(),
                toks == split_tokens(s@),
                toks == strings_view(parts@).push(cur@),
                forall|k: int| 0 <= k < j ==> (#[trigger] toks[k]).len() > 0,
            decreases parts@.len() - j,
        {
            if parts[j].as_str().is_empty() {
                assert(toks[j as int] == parts@[j as int]@);
                assert(toks[j as int].len() == 0);
                assert(!well_formed_text(s@));
                let e = Error::Syntax(s.to_owned());
                assert(e@ == ErrorModel::Syntax(s@));
                return Err(e);
            }
            assert(toks[j as int] == parts@[j as int]@);
            j = j + 1;
        }
        assert(well_formed_text(s@)) by {
            assert forall|k: int| 0 <= k < toks.len() implies (#[trigger] toks[k]).len() > 0 by {
                if k == toks.len() - 1 {
                    assert(toks[k] == cur@);
                }
            }
        }
        assert(toks.last() == cur@);
        if !has_digit || !digits_only || overflow {
            return Err(Error::Id(s.to_owned(), cur));
        }
        proof {
            lemma_parse_valid(s@);
        }
        let kind = parts.pop().unwrap();
        assert(toks.take(toks.len() - 2) =~= strings_view(parts@));
        assert(toks[toks.len() - 2] == kind@);
        Ok(Hrid { namespace: parts, kind, id: val })
    }
}

impl core::str::FromStr for Hrid {
    type Err = Error;

    fn from_str(s: &str) -> (r: Result<Hrid, Error>)
        ensures
            r is Ok <==> parse_spec(s@) is Ok,
            r matches Ok(h) ==> parse_spec(s@) == Ok::<HridModel, ErrorModel>(h@),
            r matches Err(e) ==> parse_spec(s@) == Err::<HridModel, ErrorModel>(e@),
    {
        Hrid::parse(s)
    }
}

impl Error {
    /// A human-readable description of the error.
    pub fn to_string(&self) -> (r: String)
        ensures
            match self {
                Error::Syntax(s) => r@ == "Invalid HRID format: "@ + s@,
                Error::Id(s, t) => r@ == "Invalid ID in HRID '"@ + s@
                    + "': expected an integer, got "@ + t@,
            },
    {
        match self {
            Error::Syntax(s) => {
                let mut r = String::from_str("Invalid HRID format: ");
                r.append(s.as_str());
                r
            },
            Error::Id(s, t) => {
                let mut r = String::from_str("Invalid ID in HRID '");
                r.append(s.as_str());
                r.append("': expected an integer, got ");
                r.append(t.as_str());
                r
            },
        }
    }
}

impl EmptyStringError {
    /// A human-readable description of the error.
    pub fn to_string(&self) -> (r: String)
        ensures
            r@ == "found empty string"@,
    {
        String::from_str("found empty string")
    }
}

/// Whether `s` may stand as a segment or kind: non-empty, without separator.
pub fn is_valid_segment(s: &String) -> (r: bool)
    ensures
        r == valid_segment(s@),
{
    let cs = chars_of(s.as_str());
    if cs.len() == 0 {
        return false;
    }
    let mut i: usize = 0;
    while i < cs.len()
        invariant
            cs@ == s@,
            i <= cs@.len(),
            forall|k: int| 0 <= k < i ==> cs@[k] != SEPARATOR,
        decreases cs@.len() - i,
    {
        if cs[i] == SEPARATOR {
            assert(s@.contains(SEPARATOR)) by {
                assert(s@[i as int] == SEPARATOR);
            }
            return false;
        }
        i = i + 1;
    }
    true
}

} // verus!
