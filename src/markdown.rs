//! Framing of a requirement file: a front-matter block between two `---`
//! lines, then the body.
//!
//! ```text
//! ---
//! <front matter>
//! ---
//! <body>
//! ```

use crate::text::{chars_of, push_char};
use vstd::prelude::*;

verus! {

/// Errors of [`unframe`].
#[derive(Debug, Clone, Copy, PartialEq, Eq)]
pub enum FrameError {
    /// The text does not start with a `---` line.
    MissingStart,
    /// No `---` line closes the front matter.
    MissingEnd,
}

pub open spec fn delimiter() -> Seq<char> {
    seq!['-', '-', '-']
}

/// The file text for a front matter (which, when non-empty, ends with a line
/// break) and a body.
pub open spec fn frame_spec(front: Seq<char>, body: Seq<char>) -> Seq<char> {
    delimiter().push('\n') + front + delimiter().push('\n') + body.push('\n')
}

/// A line ends at position `k`: the text ends there, or a line break
/// (`\n` or `\r\n`) starts there.
pub open spec fn ends_line(t: Seq<char>, k: int) -> bool {
    k == t.len() || t[k] == '\n' || (t[k] == '\r' && (k + 1 == t.len() || t[k + 1] == '\n'))
}

/// Where the next line starts, for a line ending at `k`.
pub open spec fn after_line(t: Seq<char>, k: int) -> int {
    if k >= t.len() {
        t.len() as int
    } else if t[k] == '\n' {
        k + 1
    } else if k + 1 == t.len() {
        t.len() as int
    } else {
        k + 2
    }
}

/// A `---` line starts at position `j`, after the opening line.
pub open spec fn closes_at(t: Seq<char>, j: int) -> bool {
    &&& 4 <= j && j + 3 <= t.len()
    &&& t[j - 1] == '\n'
    &&& t.subrange(j, j + 3) == delimiter()
    &&& ends_line(t, j + 3)
}

/// The text opens with a `---` line ended by `\n` or `\r\n`.
pub open spec fn opens(t: Seq<char>) -> bool {
    &&& t.len() >= 4
    &&& t.subrange(0, 3) == delimiter()
    &&& (t[3] == '\n' || (t.len() >= 5 && t[3] == '\r' && t[4] == '\n'))
}

/// Where the front matter starts: after the opening line.
pub open spec fn front_start(t: Seq<char>) -> int {
    if t[3] == '\n' {
        4
    } else {
        5
    }
}

/// The text after position `k`, without one final line break.
pub open spec fn body_from(t: Seq<char>, k: int) -> Seq<char> {
    let rest = if k <= t.len() {
        t.subrange(k, t.len() as int)
    } else {
        Seq::<char>::empty()
    };
    if rest.len() >= 2 && rest.last() == '\n' && rest[rest.len() - 2] == '\r' {
        rest.subrange(0, rest.len() - 2)
    } else if rest.len() > 0 && rest.last() == '\n' {
        rest.drop_last()
    } else {
        rest
    }
}

/// No line of `front` is `---`.
pub open spec fn no_delimiter_line(front: Seq<char>) -> bool {
    forall|k: int|
        0 <= k && k + 3 < front.len() && (k == 0 || front[k - 1] == '\n') ==> !(#[trigger] front.subrange(
            k,
            k + 3,
        ) == delimiter() && (front[k + 3] == '\n' || (front[k + 3] == '\r' && k + 4 < front.len()
            && front[k + 4] == '\n')))
}

/// Framing then splitting gives both parts back: for a front matter that is
/// empty or ends with a line break and has no `---` line, the framed text
/// opens, its first closing line follows the front matter, and what lies
/// between and after is the front matter and the body.
#[verifier::rlimit(60)]
pub proof fn lemma_unframe_frame(front: Seq<char>, body: Seq<char>)
    requires
        front.len() == 0 || front.last() == '\n',
        no_delimiter_line(front),
        body.len() == 0 || body.last() != '\r',
    ensures
        opens(frame_spec(front, body)),
        front_start(frame_spec(front, body)) == 4,
        closes_at(frame_spec(front, body), 4 + front.len() as int),
        after_line(frame_spec(front, body), 7 + front.len() as int) == 8 + front.len(),
        forall|j: int| 4 <= j < 4 + front.len() ==> !closes_at(frame_spec(front, body), j),
        frame_spec(front, body).subrange(4, 4 + front.len() as int) == front,
        body_from(frame_spec(front, body), 8 + front.len() as int) == body,
{
    let t = frame_spec(front, body);
    let n = front.len() as int;
    let d = delimiter().push('\n');
    assert(t =~= d + front + d + body.push('\n'));
    assert(t.len() == 8 + n + body.len() + 1);
    assert forall|i: int| 0 <= i < 4 implies t[i] == d[i] by {}
    assert forall|i: int| 0 <= i < n implies #[trigger] t[4 + i] == front[i] by {}
    assert forall|i: int| 0 <= i < 4 implies #[trigger] t[4 + n + i] == d[i] by {}
    assert forall|i: int| 0 <= i < body.len() implies #[trigger] t[8 + n + i] == body[i] by {}
    assert(t[8 + n + body.len()] == '\n');
    assert(t.subrange(0, 3) =~= delimiter());
    assert(t.subrange(4, 4 + n) =~= front);
    assert(t.subrange(4 + n, 7 + n) =~= delimiter());
    assert(t[3 + n] == '\n') by {
        if n == 0 {
            assert(t[3] == d[3]);
        } else {
            assert(t[4 + (n - 1)] == front[n - 1]);
        }
    }
    assert(t[7 + n] == d[3]);
    assert forall|j: int| 4 <= j < 4 + n implies !closes_at(t, j) by {
        if closes_at(t, j) {
            let k = j - 4;
            assert(t.subrange(j, j + 3)[0] == '-');
            assert(t.subrange(j, j + 3)[1] == '-');
            assert(t.subrange(j, j + 3)[2] == '-');
            assert(t[j] == '-' && t[j + 1] == '-' && t[j + 2] == '-');
            if j + 2 >= 3 + n {
                assert(false) by {
                    if j + 1 == 3 + n {
                        assert(t[j + 1] == '\n');
                    } else if j + 2 == 3 + n {
                        assert(t[j + 2] == '\n');
                    } else {
                        assert(t[j] == '\n');
                    }
                }
            }
            assert(j + 3 <= 3 + n);
            assert(k + 3 < n);
            assert(front[k] == t[4 + k]);
            assert(front[k + 1] == t[4 + (k + 1)]);
            assert(front[k + 2] == t[4 + (k + 2)]);
            assert(front[k + 3] == t[4 + (k + 3)]);
            assert(front.subrange(k, k + 3) =~= delimiter());
            if k > 0 {
                assert(front[k - 1] == t[4 + (k - 1)]);
            }
            if t[j + 3] == '\r' {
                assert(j + 4 < t.len());
                assert(t[j + 4] == '\n');
                if j + 4 == 4 + n {
                    assert(t[4 + n] == d[0]);
                }
                assert(k + 4 < n);
                assert(front[k + 4] == t[4 + (k + 4)]);
            }
            assert(!(front.subrange(k, k + 3) == delimiter() && (front[k + 3] == '\n' || (front[k + 3]
                == '\r' && k + 4 < front.len() && front[k + 4] == '\n'))));
        }
    }
    let rest = t.subrange(8 + n, t.len() as int);
    assert(rest =~= body.push('\n'));
    assert(rest.drop_last() =~= body);
    if rest.len() >= 2 {
        assert(rest[rest.len() - 2] == body.last());
    }
}

/// Appends a string slice.
fn push_str(out: &mut String, s: &str)
    ensures
        final(out)@ == old(out)@ + s@,
{
    out.append(s);
}

/// Renders a file: the opening `---` line, the front matter, the closing
/// `---` line, the body and a final line break.
pub fn frame(front: &str, body: &str) -> (r: String)
    ensures
        r@ == frame_spec(front@, body@),
{
    let mut out = String::new();
    push_str(&mut out, "---\n");
    push_str(&mut out, front);
    push_str(&mut out, "---\n");
    push_str(&mut out, body);
    push_char(&mut out, '\n');
    proof {
        reveal_strlit("---\n");
        assert(out@ =~= frame_spec(front@, body@));
    }
    out
}

/// The characters `cs[from..to]` as a string.
fn collect(cs: &Vec<char>, from: usize, to: usize) -> (r: String)
    requires
        from <= to <= cs@.len(),
    ensures
        r@ == cs@.subrange(from as int, to as int),
{
    let mut out = String::new();
    let mut i: usize = from;
    while i < to
        invariant
            from <= i <= to,
            to <= cs@.len(),
            out@ == cs@.subrange(from as int, i as int),
        decreases to - i,
    {
        push_char(&mut out, cs[i]);
        i = i + 1;
        assert(out@ =~= cs@.subrange(from as int, i as int));
    }
    out
}

/// Splits a file into its front matter (the text between the opening `---`
/// line and the first later `---` line) and its body (what follows that
/// line, without one final line break). Lines may end with `\n` or `\r\n`.
pub fn unframe(text: &str) -> (r: Result<(String, String), FrameError>)
    ensures
        !opens(text@) <==> r == Err::<(String, String), FrameError>(FrameError::MissingStart),
        opens(text@) && (forall|j: int| !closes_at(text@, j)) <==> r == Err::<(String, String), FrameError>(
            FrameError::MissingEnd,
        ),
        r matches Ok((front, body)) ==> exists|j: int|
            #[trigger] closes_at(text@, j) && (forall|j2: int| 4 <= j2 < j ==> !closes_at(text@, j2))
                && front_start(text@) <= j && front@ == text@.subrange(front_start(text@), j) && body@
                == body_from(text@, after_line(text@, j + 3)),
{
    let cs = chars_of(text);
    let n = cs.len();
    if n < 4 || cs[0] != '-' || cs[1] != '-' || cs[2] != '-' || !(cs[3] == '\n' || (n >= 5 && cs[3]
        == '\r' && cs[4] == '\n')) {
        proof {
            if opens(text@) {
                assert(text@.subrange(0, 3)[0] == cs@[0]);
                assert(text@.subrange(0, 3)[1] == cs@[1]);
                assert(text@.subrange(0, 3)[2] == cs@[2]);
            }
        }
        return Err(FrameError::MissingStart);
    }
    assert(opens(text@)) by {
        assert(text@.subrange(0, 3) =~= delimiter());
    }
    let fs: usize = if cs[3] == '\n' {
        4
    } else {
        5
    };
    let mut j: usize = 4;
    while j <= n && n - j >= 3
        invariant
            cs@ == text@,
            n == cs@.len(),
            opens(text@),
            fs == front_start(text@),
            4 <= j,
            forall|j2: int| 4 <= j2 < j ==> !closes_at(text@, j2),
        decreases n - j,
    {
        let k = j + 3;
        let line_ends = k == n || cs[k] == '\n' || (cs[k] == '\r' && (k + 1 == n || cs[k + 1] == '\n'));
        if cs[j - 1] == '\n' && cs[j] == '-' && cs[j + 1] == '-' && cs[j + 2] == '-' && line_ends {
            assert(closes_at(text@, j as int)) by {
                assert(text@.subrange(j as int, j + 3) =~= delimiter());
            }
            assert(fs <= j) by {
                if fs == 5 && j == 4 {
                    assert(cs@[3] == '\r');
                }
            }
            let front = collect(&cs, fs, j);
            let start = if k == n {
                n
            } else if cs[k] == '\n' {
                k + 1
            } else if k + 1 == n {
                n
            } else {
                k + 2
            };
            let mut end = n;
            if n - start >= 2 && cs[n - 1] == '\n' && cs[n - 2] == '\r' {
                end = n - 2;
            } else if start < n && cs[n - 1] == '\n' {
                end = n - 1;
            }
            let body = collect(&cs, start, end);
            proof {
                assert(start as int == after_line(text@, j + 3));
                let rest = text@.subrange(start as int, text@.len() as int);
                assert(rest =~= cs@.subrange(start as int, n as int));
                if rest.len() >= 2 && rest.last() == '\n' && rest[rest.len() - 2] == '\r' {
                    assert(rest.subrange(0, rest.len() - 2) =~= cs@.subrange(start as int, end as int));
                } else if rest.len() > 0 && rest.last() == '\n' {
                    assert(rest.drop_last() =~= cs@.subrange(start as int, end as int));
                } else {
                    assert(rest =~= cs@.subrange(start as int, end as int));
                }
                assert(body_from(text@, start as int) == body@);
            }
            return Ok((front, body));
        }
        proof {
            if closes_at(text@, j as int) {
                assert(text@.subrange(j as int, j + 3)[0] == cs@[j as int]);
                assert(text@.subrange(j as int, j + 3)[1] == cs@[j + 1]);
                assert(text@.subrange(j as int, j + 3)[2] == cs@[j + 2]);
            }
        }
        j = j + 1;
    }
    proof {
        assert forall|j2: int| !closes_at(text@, j2) by {
            if j2 >= j {
                assert(j2 + 3 > text@.len());
            }
        }
    }
    Err(FrameError::MissingEnd)
}

} // verus!
